//! The fixed-width integer circuit gadget.
//!
//! An integer is an ordered little-endian sequence of boolean gadgets of
//! a fixed width (8, 16, 32, 64 or 128 bits), signed integers using
//! two's-complement with the most-significant bit as the sign. Checked
//! operations force the constraint system to be unsatisfiable on
//! overflow of non-constant operands and halt on overflow of constants;
//! wrapped operations reduce modulo two to the width with no failure.

use vstd::prelude::*;

use crate::binary::{bit, bits_val};
use crate::environment::Environment;
use crate::fp::{fp_m, Fp};
use crate::mode::Mode;
use crate::types::boolean::{bools_of, bools_wf, Boolean};
use crate::types::field::Field;
use vstd::arithmetic::power2::pow2;

verus! {

/// A fixed-width integer in the circuit.
#[derive(Debug)]
pub struct Integer {
    /// The bits, least significant first.
    pub bits_le: Vec<Boolean>,
    /// Whether the value is interpreted in two's complement.
    pub signed: bool,
}

/// The widths the gadget supports.
pub open spec fn valid_width(w: nat) -> bool {
    w == 8 || w == 16 || w == 32 || w == 64 || w == 128
}

impl Integer {
    /// The width in bits.
    pub open spec fn width(&self) -> nat {
        self.bits_le@.len()
    }

    /// All bits are well formed, the width is supported, and the bits
    /// share one visibility: all constants, or none.
    pub open spec fn wf(&self) -> bool {
        &&& bools_wf(self.bits_le@)
        &&& valid_width(self.width())
        &&& (self.is_constant_spec() || (forall|i: int|
            0 <= i < self.bits_le@.len() ==> !(#[trigger] self.bits_le@[i]).is_constant_spec()))
    }

    /// The unsigned interpretation of the bits.
    pub open spec fn uval(&self) -> nat {
        bits_val(bools_of(self.bits_le@))
    }

    /// The signed (two's-complement) interpretation of the bits.
    pub open spec fn sval(&self) -> int {
        if self.bits_le@.len() > 0 && self.bits_le@.last().value {
            self.uval() - pow2(self.width())
        } else {
            self.uval() as int
        }
    }

    /// The native value: unsigned or two's-complement according to the
    /// integer's kind.
    pub open spec fn ival(&self) -> int {
        if self.signed {
            self.sval()
        } else {
            self.uval() as int
        }
    }

    /// All bits are circuit constants.
    pub open spec fn is_constant_spec(&self) -> bool {
        forall|i: int|
            0 <= i < self.bits_le@.len() ==> (#[trigger] self.bits_le@[i]).is_constant_spec()
    }

    /// Whether every bit is a circuit constant.
    pub fn is_constant(&self) -> (r: bool)
        ensures
            r <==> self.is_constant_spec(),
    {
        let n = self.bits_le.len();
        let mut i: usize = 0;
        while i < n
            invariant
                i <= n,
                n == self.bits_le@.len(),
                forall|t: int| 0 <= t < i ==> (#[trigger] self.bits_le@[t]).is_constant_spec(),
            decreases n - i,
        {
            if !self.bits_le[i].is_constant() {
                return false;
            }
            i = i + 1;
        }
        true
    }

    /// The most significant bit: the sign bit of a signed integer.
    pub fn msb(&self) -> (r: &Boolean)
        requires
            self.width() > 0,
        ensures
            *r == self.bits_le@.last(),
    {
        &self.bits_le[self.bits_le.len() - 1]
    }

    /// An identical copy of the gadget.
    pub fn duplicate(&self) -> (r: Integer)
        ensures
            bools_of(r.bits_le@) == bools_of(self.bits_le@),
            r.width() == self.width(),
            r.signed == self.signed,
            r.uval() == self.uval(),
            r.sval() == self.sval(),
            r.ival() == self.ival(),
            self.wf() ==> r.wf(),
            r.is_constant_spec() == self.is_constant_spec(),
    {
        let mut bits: Vec<Boolean> = Vec::new();
        let n = self.bits_le.len();
        let mut i: usize = 0;
        while i < n
            invariant
                i <= n,
                n == self.bits_le@.len(),
                bits@.len() == i,
                forall|t: int|
                    0 <= t < i ==> (#[trigger] bits@[t]).value == self.bits_le@[t].value && (
                    bits@[t].lc.constant == self.bits_le@[t].lc.constant) && (bits@[t].lc.terms@
                        == self.bits_le@[t].lc.terms@) && bits@[t].is_constant_spec()
                        == self.bits_le@[t].is_constant_spec() && (self.bits_le@[t].wf()
                        ==> bits@[t].wf()),
            decreases n - i,
        {
            bits.push(self.bits_le[i].duplicate());
            i = i + 1;
        }
        let r = Integer { bits_le: bits, signed: self.signed };
        proof {
            assert(bools_of(r.bits_le@) =~= bools_of(self.bits_le@));
            if self.is_constant_spec() {
                assert forall|t: int| 0 <= t < n implies (
                #[trigger] r.bits_le@[t]).is_constant_spec() by {
                    assert(self.bits_le@[t].is_constant_spec());
                }
            }
            if r.is_constant_spec() {
                assert forall|t: int| 0 <= t < n implies (
                #[trigger] self.bits_le@[t]).is_constant_spec() by {
                    assert(r.bits_le@[t].is_constant_spec());
                }
            }
            if self.wf() {
                assert forall|t: int| 0 <= t < n implies (#[trigger] r.bits_le@[t]).wf() by {
                    assert(self.bits_le@[t].wf());
                }
            }
        }
        r
    }

    /// The field element holding the unsigned value of the bits:
    /// the weighted sum of the bits, free of gates.
    pub fn to_field(&self, env: &mut Environment) -> (r: Field)
        requires
            self.wf(),
            old(env).wf(),
        ensures
            r.wf(),
            r.value@ == self.uval(),
            final (env).vars@ == old(env).vars@,
            final (env).constraints@ == old(env).constraints@,
            final (env).scopes@ == old(env).scopes@,
            final (env).halted == old(env).halted,
            final (env).wf(),
            r.is_constant_spec() <==> self.is_constant_spec(),
    {
        let ghost env0 = *env;
        let mut acc = Field::zero();
        let mut coeff = Fp::one();
        let n = self.bits_le.len();
        let mut i: usize = 0;
        proof {
            vstd::arithmetic::power2::lemma2_to64();
            vstd::arithmetic::div_mod::lemma_small_mod(1nat, fp_m());
            assert(bools_of(self.bits_le@).take(0) =~= Seq::<bool>::empty());
        }
        while i < n
            invariant
                i <= n,
                n == self.bits_le@.len(),
                self.wf(),
                env.wf(),
                env.vars@ == env0.vars@,
                env.constraints@ == env0.constraints@,
                env.scopes@ == env0.scopes@,
                env.halted == env0.halted,
                acc.wf(),
                acc.value@ == bits_val(bools_of(self.bits_le@).take(i as int)) % fp_m(),
                acc.is_constant_spec() == (i == 0 || (forall|t: int|
                    0 <= t < i ==> (#[trigger] self.bits_le@[t]).is_constant_spec())),
                coeff.wf(),
                coeff@ == pow2(i as nat) % fp_m(),
            decreases n - i,
        {
            proof {
                assert(self.bits_le@[i as int].wf());
            }
            let b = &self.bits_le[i];
            let coeff_field = Field {
                lc: crate::environment::LinearCombination::from_constant(coeff),
                value: coeff,
            };
            let term = Field::from_boolean(b).mul(env, &coeff_field);
            let next_acc = acc.add(&term);
            let next_coeff = crate::fp::fp_add(&coeff, &coeff);
            proof {
                crate::binary::lemma_bits_val_take_step(bools_of(self.bits_le@), i as int);
                crate::types::field::lemma_bit_sum_step(
                    bits_val(bools_of(self.bits_le@).take(i as int)) as int,
                    bit(b.value) as int,
                    pow2(i as nat) as int,
                    acc.value@ as int,
                    term.value@ as int,
                    next_acc.value@ as int,
                );
                crate::types::field::lemma_coeff_double(
                    pow2(i as nat) as int,
                    coeff@ as int,
                    next_coeff@ as int,
                );
                assert(pow2((i + 1) as nat) == 2 * pow2(i as nat)) by {
                    vstd::arithmetic::power2::lemma_pow2_adds(1, i as nat);
                    vstd::arithmetic::power2::lemma2_to64();
                }
            }
            acc = next_acc;
            coeff = next_coeff;
            i = i + 1;
        }
        proof {
            assert(bools_of(self.bits_le@).take(n as int) =~= bools_of(self.bits_le@));
            crate::binary::lemma_bits_val_bound(bools_of(self.bits_le@));
            lemma_width_pow2_below_modulus(self.width());
            vstd::arithmetic::div_mod::lemma_small_mod(self.uval(), fp_m());
        }
        acc
    }

    /// The bitwise complement; per-bit negation, free of gates.
    pub fn not_bits(&self) -> (r: Integer)
        requires
            self.wf(),
        ensures
            r.wf(),
            r.width() == self.width(),
            r.signed == self.signed,
            r.uval() == pow2(self.width()) - 1 - self.uval(),
            r.is_constant_spec() == self.is_constant_spec(),
    {
        let mut bits: Vec<Boolean> = Vec::new();
        let n = self.bits_le.len();
        let mut i: usize = 0;
        while i < n
            invariant
                i <= n,
                n == self.bits_le@.len(),
                self.wf(),
                bits@.len() == i,
                bools_wf(bits@),
                forall|t: int|
                    0 <= t < i ==> (#[trigger] bits@[t]).value == !self.bits_le@[t].value && (
                    bits@[t].is_constant_spec() == self.bits_le@[t].is_constant_spec()),
            decreases n - i,
        {
            proof {
                assert(self.bits_le@[i as int].wf());
            }
            let b = self.bits_le[i].not();
            bits.push(b);
            i = i + 1;
        }
        let r = Integer { bits_le: bits, signed: self.signed };
        proof {
            lemma_bits_val_flip(bools_of(self.bits_le@), bools_of(r.bits_le@));
            if self.is_constant_spec() {
                assert forall|t: int| 0 <= t < n implies (
                #[trigger] r.bits_le@[t]).is_constant_spec() by {
                    assert(self.bits_le@[t].is_constant_spec());
                }
            }
            if r.is_constant_spec() {
                assert forall|t: int| 0 <= t < n implies (
                #[trigger] self.bits_le@[t]).is_constant_spec() by {
                    assert(r.bits_le@[t].is_constant_spec());
                }
            }
        }
        r
    }
}

impl Integer {
    /// Allocates the bits of `value` with the given mode, width and
    /// signedness: one allocation per bit, plus one range gate per bit
    /// for non-constant modes.
    fn alloc_bits(env: &mut Environment, mode: Mode, value: u128, width: usize, signed: bool)
        -> (r: Integer)
        requires
            old(env).wf(),
            valid_width(width as nat),
            value < pow2(width as nat),
        ensures
            r.wf(),
            r.width() == width,
            r.signed == signed,
            r.uval() == value,
            r.is_constant_spec() <==> mode is Constant,
            final (env).wf(),
            final (env).halted == old(env).halted,
            final (env).scopes@ == old(env).scopes@,
            final (env).vars@.len() == old(env).vars@.len() + width,
            final (env).vars@ == old(env).vars@ + Seq::new(width as nat, |i: int| mode),
            mode is Constant ==> final (env).constraints@ == old(env).constraints@,
            !(mode is Constant) ==> final (env).constraints@.len() == old(
                env,
            ).constraints@.len() + width && (final (env).all_gates_hold() <==> old(
                env,
            ).all_gates_hold()),
    {
        let ghost env0 = *env;
        let native_bits = crate::binary::u128_bits_le(value);
        let mut bits: Vec<Boolean> = Vec::new();
        let mut i: usize = 0;
        proof {
            assert(bools_of(bits@) =~= native_bits@.take(0));
        }
        while i < width
            invariant
                i <= width,
                width <= 128,
                native_bits@.len() == 128,
                bits_val(native_bits@) == value,
                env.wf(),
                env.halted == env0.halted,
                env.scopes@ == env0.scopes@,
                env.vars@.len() == env0.vars@.len() + i,
                env.vars@ == env0.vars@ + Seq::new(i as nat, |t: int| mode),
                mode is Constant ==> env.constraints@ == env0.constraints@,
                !(mode is Constant) ==> env.constraints@.len() == env0.constraints@.len() + i
                    && (env.all_gates_hold() <==> env0.all_gates_hold()),
                bits@.len() == i,
                bools_wf(bits@),
                bools_of(bits@) == native_bits@.take(i as int),
                forall|t: int|
                    0 <= t < i ==> ((#[trigger] bits@[t]).is_constant_spec() <==> mode
                        is Constant),
            decreases width - i,
        {
            let b = Boolean::new(env, mode, native_bits[i]);
            bits.push(b);
            proof {
                assert(bools_of(bits@) =~= native_bits@.take(i + 1));
                assert(env.vars@ =~= env0.vars@ + Seq::new((i + 1) as nat, |t: int| mode));
            }
            i = i + 1;
        }
        let r = Integer { bits_le: bits, signed };
        proof {
            crate::binary::lemma_bits_val_take_is_mod(native_bits@, width as int);
            vstd::arithmetic::div_mod::lemma_small_mod(value as nat, pow2(width as nat));
            if mode is Constant {
                assert forall|t: int| 0 <= t < width implies (
                #[trigger] r.bits_le@[t]).is_constant_spec() by {}
            } else {
                assert(!r.bits_le@[0].is_constant_spec());
            }
        }
        r
    }

    /// Allocates an unsigned integer of the given width holding `value`.
    pub fn new_unsigned(env: &mut Environment, mode: Mode, value: u128, width: usize) -> (r:
        Integer)
        requires
            old(env).wf(),
            valid_width(width as nat),
            width < 128 ==> value < pow2(width as nat),
        ensures
            r.wf(),
            r.width() == width,
            !r.signed,
            r.uval() == value,
            r.ival() == value,
            r.is_constant_spec() <==> mode is Constant,
            final (env).wf(),
            final (env).halted == old(env).halted,
            final (env).scopes@ == old(env).scopes@,
            final (env).vars@.len() == old(env).vars@.len() + width,
            final (env).vars@ == old(env).vars@ + Seq::new(width as nat, |i: int| mode),
            mode is Constant ==> final (env).constraints@ == old(env).constraints@,
            !(mode is Constant) ==> final (env).constraints@.len() == old(
                env,
            ).constraints@.len() + width && (final (env).all_gates_hold() <==> old(
                env,
            ).all_gates_hold()),
    {
        proof {
            if width == 128 {
                vstd::arithmetic::power2::lemma_pow2_adds(64, 64);
                vstd::arithmetic::power2::lemma2_to64();
            }
        }
        Integer::alloc_bits(env, mode, value, width, false)
    }

    /// Allocates a signed two's-complement integer of the given width
    /// holding `value`.
    pub fn new_signed(env: &mut Environment, mode: Mode, value: i128, width: usize) -> (r:
        Integer)
        requires
            old(env).wf(),
            valid_width(width as nat),
            width < 128 ==> -pow2((width - 1) as nat) <= value < pow2((width - 1) as nat),
        ensures
            r.wf(),
            r.width() == width,
            r.signed,
            r.sval() == value,
            r.ival() == value,
            r.is_constant_spec() <==> mode is Constant,
            final (env).wf(),
            final (env).halted == old(env).halted,
            final (env).scopes@ == old(env).scopes@,
            final (env).vars@.len() == old(env).vars@.len() + width,
            final (env).vars@ == old(env).vars@ + Seq::new(width as nat, |i: int| mode),
            mode is Constant ==> final (env).constraints@ == old(env).constraints@,
            !(mode is Constant) ==> final (env).constraints@.len() == old(
                env,
            ).constraints@.len() + width && (final (env).all_gates_hold() <==> old(
                env,
            ).all_gates_hold()),
    {
        proof {
            lemma_halves(width as nat);
            if width == 128 {
                vstd::arithmetic::power2::lemma_pow2_adds(64, 63);
                vstd::arithmetic::power2::lemma_pow2_adds(64, 64);
                vstd::arithmetic::power2::lemma2_to64();
            }
        }
        proof {
            crate::binary::lemma_pow2_large();
            if width < 128 {
                vstd::arithmetic::power2::lemma_pow2_strictly_increases(
                    (width - 1) as nat,
                    127,
                );
                vstd::arithmetic::power2::lemma_pow2_strictly_increases(width as nat, 128);
            }
        }
        let u: u128 = if value >= 0 {
            value as u128
        } else if width == 128 {
            u128::MAX - ((-(value + 1)) as u128)
        } else {
            crate::binary::pow2_u128(width) - ((-value) as u128)
        };
        proof {
            assert(u == (if value >= 0 {
                value as int
            } else {
                value + pow2(width as nat)
            }));
            assert(u < pow2(width as nat));
        }
        let r = Integer::alloc_bits(env, mode, u, width, true);
        proof {
            lemma_msb_value(bools_of(r.bits_le@));
            lemma_halves(width as nat);
            assert(bools_of(r.bits_le@).last() == r.bits_le@.last().value);
            if value >= 0 {
                assert(r.uval() < pow2((width - 1) as nat));
            } else {
                assert(r.uval() >= pow2((width - 1) as nat));
            }
        }
        r
    }

    /// The zero of the given width and kind: one constant per bit, no
    /// gate.
    pub fn zero(env: &mut Environment, width: usize, signed: bool) -> (r: Integer)
        requires
            old(env).wf(),
            valid_width(width as nat),
        ensures
            r.wf(),
            r.width() == width,
            r.signed == signed,
            r.uval() == 0,
            r.ival() == 0,
            r.is_constant_spec(),
            final (env).wf(),
            final (env).halted == old(env).halted,
            final (env).scopes@ == old(env).scopes@,
            final (env).vars@.len() == old(env).vars@.len() + width,
            final (env).vars@ == old(env).vars@ + Seq::new(
                width as nat,
                |i: int| Mode::Constant,
            ),
            final (env).constraints@ == old(env).constraints@,
    {
        proof {
            vstd::arithmetic::power2::lemma_pow2_pos(width as nat);
        }
        let r = Integer::alloc_bits(env, Mode::Constant, 0, width, signed);
        proof {
            if r.bits_le@.len() > 0 {
                lemma_msb_value(bools_of(r.bits_le@));
                vstd::arithmetic::power2::lemma_pow2_pos((width - 1) as nat);
            }
        }
        r
    }

    /// The one of the given width and kind: one constant per bit, no
    /// gate.
    pub fn one(env: &mut Environment, width: usize, signed: bool) -> (r: Integer)
        requires
            old(env).wf(),
            valid_width(width as nat),
        ensures
            r.wf(),
            r.width() == width,
            r.signed == signed,
            r.uval() == 1,
            r.ival() == 1,
            r.is_constant_spec(),
            final (env).wf(),
            final (env).halted == old(env).halted,
            final (env).scopes@ == old(env).scopes@,
            final (env).vars@.len() == old(env).vars@.len() + width,
            final (env).vars@ == old(env).vars@ + Seq::new(
                width as nat,
                |i: int| Mode::Constant,
            ),
            final (env).constraints@ == old(env).constraints@,
    {
        proof {
            lemma_halves(width as nat);
            vstd::arithmetic::power2::lemma_pow2_strictly_increases(0, width as nat);
            vstd::arithmetic::power2::lemma2_to64();
        }
        let r = Integer::alloc_bits(env, Mode::Constant, 1, width, signed);
        proof {
            lemma_msb_value(bools_of(r.bits_le@));
            vstd::arithmetic::power2::lemma_pow2_strictly_increases(0, (width - 1) as nat);
        }
        r
    }

    /// Whether two integers of the same width and kind are equal, by
    /// comparing their field values.
    pub fn is_equal(&self, env: &mut Environment, other: &Integer) -> (r: Boolean)
        requires
            self.wf(),
            other.wf(),
            self.width() == other.width(),
            self.signed == other.signed,
            old(env).wf(),
        ensures
            r.wf(),
            r.value == (self.ival() == other.ival()),
            r.value == (self.uval() == other.uval()),
            final (env).wf(),
            final (env).halted == old(env).halted,
            final (env).scopes@ == old(env).scopes@,
            final (env).all_gates_hold() <==> old(env).all_gates_hold(),
    {
        let a = self.to_field(env);
        let b = other.to_field(env);
        let r = a.is_equal(env, &b);
        proof {
            lemma_ival_injective(self, other);
        }
        r
    }

    /// Whether two integers of the same width and kind differ.
    pub fn is_not_equal(&self, env: &mut Environment, other: &Integer) -> (r: Boolean)
        requires
            self.wf(),
            other.wf(),
            self.width() == other.width(),
            self.signed == other.signed,
            old(env).wf(),
        ensures
            r.wf(),
            r.value == (self.ival() != other.ival()),
            final (env).wf(),
            final (env).halted == old(env).halted,
            final (env).scopes@ == old(env).scopes@,
            final (env).all_gates_hold() <==> old(env).all_gates_hold(),
    {
        let a = self.to_field(env);
        let b = other.to_field(env);
        let r = a.is_not_equal(env, &b);
        proof {
            lemma_ival_injective(self, other);
        }
        r
    }

    /// Returns `first` if `condition` is true, otherwise `second`,
    /// selecting bit by bit.
    pub fn ternary(env: &mut Environment, condition: &Boolean, first: &Integer, second: &Integer)
        -> (r: Integer)
        requires
            condition.wf(),
            first.wf(),
            second.wf(),
            first.width() == second.width(),
            first.signed == second.signed,
            old(env).wf(),
        ensures
            r.wf(),
            r.width() == first.width(),
            r.signed == first.signed,
            r.uval() == (if condition.value {
                first.uval()
            } else {
                second.uval()
            }),
            r.ival() == (if condition.value {
                first.ival()
            } else {
                second.ival()
            }),
            !condition.is_constant_spec() ==> !r.is_constant_spec(),
            condition.is_constant_spec() ==> r.is_constant_spec() == (if condition.value {
                first.is_constant_spec()
            } else {
                second.is_constant_spec()
            }),
            final (env).wf(),
            final (env).halted == old(env).halted,
            final (env).scopes@ == old(env).scopes@,
            final (env).all_gates_hold() <==> old(env).all_gates_hold(),
    {
        let ghost env0 = *env;
        let mut bits: Vec<Boolean> = Vec::new();
        let n = first.bits_le.len();
        let mut i: usize = 0;
        while i < n
            invariant
                i <= n,
                n == first.bits_le@.len(),
                n == second.bits_le@.len(),
                condition.wf(),
                first.wf(),
                second.wf(),
                env.wf(),
                env.halted == env0.halted,
                env.scopes@ == env0.scopes@,
                env.all_gates_hold() <==> env0.all_gates_hold(),
                bits@.len() == i,
                bools_wf(bits@),
                forall|t: int|
                    0 <= t < i ==> (#[trigger] bits@[t]).value == (if condition.value {
                        first.bits_le@[t].value
                    } else {
                        second.bits_le@[t].value
                    }),
                condition.is_constant_spec() ==> (forall|t: int|
                    0 <= t < i ==> (#[trigger] bits@[t]).is_constant_spec() == (
                    if condition.value {
                        first.bits_le@[t].is_constant_spec()
                    } else {
                        second.bits_le@[t].is_constant_spec()
                    })),
                !condition.is_constant_spec() ==> (forall|t: int|
                    0 <= t < i ==> !(#[trigger] bits@[t]).is_constant_spec()),
            decreases n - i,
        {
            proof {
                assert(first.bits_le@[i as int].wf());
                assert(second.bits_le@[i as int].wf());
            }
            let b = Boolean::ternary(env, condition, &first.bits_le[i], &second.bits_le[i]);
            bits.push(b);
            i = i + 1;
        }
        let r = Integer { bits_le: bits, signed: first.signed };
        proof {
            if condition.value {
                assert(bools_of(r.bits_le@) =~= bools_of(first.bits_le@));
            } else {
                assert(bools_of(r.bits_le@) =~= bools_of(second.bits_le@));
            }
            if !condition.is_constant_spec() {
                assert(!r.bits_le@[0].is_constant_spec());
            }
            if condition.is_constant_spec() {
                let chosen = if condition.value {
                    first
                } else {
                    second
                };
                if chosen.is_constant_spec() {
                    assert forall|t: int| 0 <= t < n implies (
                    #[trigger] r.bits_le@[t]).is_constant_spec() by {
                        assert(chosen.bits_le@[t].is_constant_spec());
                    }
                } else {
                    assert forall|t: int| 0 <= t < n implies !(
                    #[trigger] r.bits_le@[t]).is_constant_spec() by {
                        assert(!chosen.bits_le@[t].is_constant_spec());
                    }
                }
            }
        }
        r
    }
}

/// The borrow-form subtraction value stays below both the field prime
/// and the next power of two, so its computation and decomposition never
/// reduce.
proof fn lemma_sub_field_value(ua: nat, ub: nat, w: nat)
    requires
        valid_width(w),
        ua < pow2(w),
        ub < pow2(w),
    ensures
        ((ua + (pow2(w) - 1 - ub)) as nat) % fp_m() == ua + (pow2(w) - 1 - ub),
        ((ua + (pow2(w) - 1 - ub) + 1) as nat) % fp_m() == ua + pow2(w) - ub,
        ua + pow2(w) - ub < pow2((w + 1) as nat),
        pow2((w + 1) as nat) < fp_m(),
        ((ua + pow2(w) - ub) as nat) % pow2((w + 1) as nat) == ua + pow2(w) - ub,
{
    lemma_halves(w);
    lemma_width_pow2_below_modulus((w + 1) as nat);
    vstd::arithmetic::power2::lemma_pow2_adds(1, w);
    vstd::arithmetic::power2::lemma2_to64();
    vstd::arithmetic::div_mod::lemma_small_mod((ua + (pow2(w) - 1 - ub)) as nat, fp_m());
    vstd::arithmetic::div_mod::lemma_small_mod((ua + pow2(w) - ub) as nat, fp_m());
    vstd::arithmetic::div_mod::lemma_small_mod(
        (ua + pow2(w) - ub) as nat,
        pow2((w + 1) as nat),
    );
}

/// A value fits the range of a width and kind: `[0, 2^w)` unsigned,
/// `[-2^(w-1), 2^(w-1))` signed.
pub open spec fn fits(v: int, w: nat, signed: bool) -> bool {
    if signed {
        -pow2((w - 1) as nat) <= v < pow2((w - 1) as nat)
    } else {
        0 <= v < pow2(w)
    }
}

/// The result of wrapping `v` to a width and kind: reduce modulo `2^w`
/// and, for signed values, recenter into two's-complement range.
pub open spec fn wrap_val(v: int, w: nat, signed: bool) -> int {
    let u = v % (pow2(w) as int);
    if signed && u >= pow2((w - 1) as nat) {
        u - pow2(w)
    } else {
        u
    }
}

impl Integer {
    /// The unsigned value of the bits as a machine word.
    pub fn to_u128(&self) -> (r: u128)
        requires
            self.wf(),
        ensures
            r == self.uval(),
    {
        let n = self.bits_le.len();
        let mut r: u128 = 0;
        let mut i: usize = n;
        proof {
            assert(bools_of(self.bits_le@).skip(n as int) =~= Seq::<bool>::empty());
            crate::binary::lemma_pow2_large();
            vstd::arithmetic::power2::lemma2_to64();
        }
        while i > 0
            invariant
                i <= n,
                n == self.bits_le@.len(),
                n <= 128,
                self.wf(),
                r == bits_val(bools_of(self.bits_le@).skip(i as int)),
                r < pow2((n - i) as nat),
            decreases i,
        {
            i = i - 1;
            let ghost s = bools_of(self.bits_le@);
            proof {
                assert(s.skip(i as int) =~= seq![s[i as int]] + s.skip(i + 1));
                assert(seq![s[i as int]].subrange(1, 1) =~= Seq::<bool>::empty());
                assert(bits_val(Seq::<bool>::empty()) == 0);
                assert(bits_val(seq![s[i as int]]) == bit(s[i as int]));
                crate::binary::lemma_bits_val_concat(seq![s[i as int]], s.skip(i + 1));
                vstd::arithmetic::power2::lemma2_to64();
                crate::binary::lemma_bits_val_bound(s.skip(i + 1));
                assert(pow2((n - i) as nat) == 2 * pow2((n - i - 1) as nat)) by {
                    vstd::arithmetic::power2::lemma_pow2_adds(1, (n - i - 1) as nat);
                    vstd::arithmetic::power2::lemma2_to64();
                }
                crate::binary::lemma_pow2_large();
                let gap: nat = (n - i) as nat;
                if gap < 128 {
                    vstd::arithmetic::power2::lemma_pow2_strictly_increases(gap, 128);
                }
            }
            let b: u128 = if self.bits_le[i].value {
                1
            } else {
                0
            };
            r = r * 2 + b;
        }
        proof {
            assert(bools_of(self.bits_le@).skip(0) =~= bools_of(self.bits_le@));
        }
        r
    }

    /// The bits of `self + (bitwise not of other) + 1` over the field: a
    /// difference with an explicit borrow indicator as the top bit. The
    /// decomposition always succeeds, costing one allocation per bit and
    /// one gate per bit plus one.
    #[verifier::rlimit(100)]
    fn sub_bits(&self, env: &mut Environment, other: &Integer) -> (r: Vec<Boolean>)
        requires
            self.wf(),
            other.wf(),
            self.width() == other.width(),
            !(self.is_constant_spec() && other.is_constant_spec()),
            old(env).wf(),
        ensures
            r@.len() == self.width() + 1,
            bools_wf(r@),
            forall|i: int| 0 <= i < r@.len() ==> !(#[trigger] r@[i]).is_constant_spec(),
            bits_val(bools_of(r@)) == self.uval() + pow2(self.width()) - other.uval(),
            final (env).wf(),
            final (env).halted == old(env).halted,
            final (env).scopes@ == old(env).scopes@,
            final (env).vars@ == old(env).vars@ + Seq::new(
                (self.width() + 1) as nat,
                |i: int| Mode::Private,
            ),
            final (env).constraints@.len() == old(env).constraints@.len() + self.width() + 2,
            final (env).all_gates_hold() <==> old(env).all_gates_hold(),
    {
        let w = self.bits_le.len();
        let a_field = self.to_field(env);
        let not_other = other.not_bits();
        let b_field = not_other.to_field(env);
        let one = Field::one();
        let difference = a_field.add(&b_field).add(&one);
        proof {
            crate::binary::lemma_bits_val_bound(bools_of(self.bits_le@));
            lemma_sub_field_value(self.uval(), other.uval(), self.width());
            assert(difference.value@ == self.uval() + pow2(self.width()) - other.uval());
            assert(!difference.is_constant_spec());
        }
        let bits = difference.to_lower_bits_le(env, w + 1);
        proof {
            assert(final (env).vars@ =~= old(env).vars@ + Seq::new(
                (self.width() + 1) as nat,
                |i: int| Mode::Private,
            ));
        }
        bits
    }

    /// Wrapping subtraction: the difference reduced modulo two to the
    /// width, with no overflow condition — wraparound is the defined
    /// semantics, and the constraint system never becomes unsatisfiable.
    pub fn sub_wrapped(&self, env: &mut Environment, other: &Integer) -> (r: Integer)
        requires
            self.wf(),
            other.wf(),
            self.width() == other.width(),
            self.signed == other.signed,
            old(env).wf(),
        ensures
            r.wf(),
            r.width() == self.width(),
            r.signed == self.signed,
            r.uval() == (self.uval() - other.uval()) % (pow2(self.width()) as int),
            r.ival() == wrap_val(self.ival() - other.ival(), self.width(), self.signed),
            final (env).wf(),
            final (env).halted == old(env).halted,
            final (env).scopes@ == old(env).scopes@,
            final (env).all_gates_hold() <==> old(env).all_gates_hold(),
            r.is_constant_spec() == (self.is_constant_spec() && other.is_constant_spec()),
            self.is_constant_spec() && other.is_constant_spec() ==> final (env).vars@ == old(
                env,
            ).vars@ + Seq::new(self.width(), |i: int| Mode::Constant) && final (
            env).constraints@ == old(env).constraints@,
            !(self.is_constant_spec() && other.is_constant_spec()) ==> final (env).vars@ == old(
                env,
            ).vars@ + Seq::new((self.width() + 1) as nat, |i: int| Mode::Private) && final (
            env).constraints@.len() == old(env).constraints@.len() + self.width() + 2,
    {
        let w = self.bits_le.len();
        if self.is_constant() && other.is_constant() {
            let ua = self.to_u128();
            let ub = other.to_u128();
            proof {
                crate::binary::lemma_bits_val_bound(bools_of(self.bits_le@));
                crate::binary::lemma_bits_val_bound(bools_of(other.bits_le@));
                vstd::arithmetic::power2::lemma_pow2_pos(self.width());
            }
            let wrapped: u128 = if ua >= ub {
                proof {
                    vstd::arithmetic::div_mod::lemma_small_mod((ua - ub) as nat, pow2(w as nat));
                }
                ua - ub
            } else if w == 128 {
                proof {
                    crate::binary::lemma_pow2_large();
                    vstd::arithmetic::power2::lemma_pow2_pos(w as nat);
                    vstd::arithmetic::div_mod::lemma_mod_add_multiples_vanish(
                        self.uval() - other.uval(),
                        pow2(w as nat) as int,
                    );
                    vstd::arithmetic::div_mod::lemma_small_mod(
                        (ua - ub + pow2(128)) as nat,
                        pow2(128),
                    );
                }
                (u128::MAX - (ub - ua)) + 1
            } else {
                proof {
                    vstd::arithmetic::power2::lemma_pow2_pos(w as nat);
                    vstd::arithmetic::div_mod::lemma_mod_add_multiples_vanish(
                        self.uval() - other.uval(),
                        pow2(w as nat) as int,
                    );
                    vstd::arithmetic::div_mod::lemma_small_mod(
                        (ua - ub + pow2(w as nat)) as nat,
                        pow2(w as nat),
                    );
                }
                (crate::binary::pow2_u128(w) - ub) + ua
            };
            let r = Integer::alloc_bits(env, Mode::Constant, wrapped, w, self.signed);
            proof {
                lemma_wrap_relates(self, other, &r);
            }
            r
        } else {
            let bits = self.sub_bits(env, other);
            let mut low: Vec<Boolean> = Vec::new();
            let mut i: usize = 0;
            while i < w
                invariant
                    i <= w,
                    w + 1 == bits@.len(),
                    bools_wf(bits@),
                    low@.len() == i,
                    bools_wf(low@),
                    bools_of(low@) == bools_of(bits@).take(i as int),
                    forall|t: int|
                        0 <= t < i ==> ((#[trigger] low@[t]).is_constant_spec()
                            <==> bits@[t].is_constant_spec()),
                decreases w - i,
            {
                proof {
                    assert(bits@[i as int].wf());
                }
                low.push(bits[i].duplicate());
                proof {
                    assert(bools_of(low@) =~= bools_of(bits@).take(i + 1));
                }
                i = i + 1;
            }
            let r = Integer { bits_le: low, signed: self.signed };
            proof {
                crate::binary::lemma_bits_val_take_is_mod(bools_of(bits@), w as int);
                vstd::arithmetic::power2::lemma_pow2_pos(w as nat);
                vstd::arithmetic::div_mod::lemma_mod_add_multiples_vanish(
                    self.uval() - other.uval(),
                    pow2(w as nat) as int,
                );
                lemma_wrap_relates(self, other, &r);
                assert(!r.is_constant_spec()) by {
                    assert(!bits@[0].is_constant_spec());
                    assert(!r.bits_le@[0].is_constant_spec());
                }
            }
            r
        }
    }
}

impl Integer {
    /// Checked subtraction. On two constants an out-of-range difference
    /// is fatal and halts the session; otherwise the difference is
    /// computed through the field with an explicit borrow bit, and the
    /// constraint system is satisfiable exactly when no underflow or
    /// overflow occurred: unsigned subtraction forces the borrow bit to
    /// one, signed subtraction forces the sign-analysis indicator to
    /// zero.
    #[verifier::rlimit(100)]
    pub fn sub_checked(&self, env: &mut Environment, other: &Integer) -> (r: Integer)
        requires
            self.wf(),
            other.wf(),
            self.width() == other.width(),
            self.signed == other.signed,
            old(env).wf(),
        ensures
            r.wf(),
            r.width() == self.width(),
            r.signed == self.signed,
            final (env).wf(),
            final (env).scopes@ == old(env).scopes@,
            self.is_constant_spec() && other.is_constant_spec() ==> {
                &&& (final (env).halted <==> old(env).halted || !fits(
                    self.ival() - other.ival(),
                    self.width(),
                    self.signed,
                ))
                &&& (final (env).all_gates_hold() <==> old(env).all_gates_hold())
                &&& (fits(self.ival() - other.ival(), self.width(), self.signed) ==> r.ival()
                    == self.ival() - other.ival() && final (env).vars@ == old(env).vars@
                    + Seq::new(self.width(), |i: int| Mode::Constant) && final (
                env).constraints@ == old(env).constraints@)
                &&& (!fits(self.ival() - other.ival(), self.width(), self.signed) ==> final (
                env).vars@ == old(env).vars@ && final (env).constraints@ == old(
                env).constraints@)
            },
            !(self.is_constant_spec() && other.is_constant_spec()) ==> {
                &&& final (env).halted == old(env).halted
                &&& r.uval() == (self.uval() - other.uval()) % (pow2(self.width()) as int)
                &&& (final (env).all_gates_hold() <==> old(env).all_gates_hold() && fits(
                    self.ival() - other.ival(),
                    self.width(),
                    self.signed,
                ))
                &&& (fits(self.ival() - other.ival(), self.width(), self.signed) ==> r.ival()
                    == self.ival() - other.ival())
                &&& (!self.signed ==> final (env).vars@ == old(env).vars@ + Seq::new(
                    (self.width() + 1) as nat,
                    |i: int| Mode::Private,
                ) && final (env).constraints@.len() == old(env).constraints@.len()
                    + self.width() + 3)
            },
    {
        let w = self.bits_le.len();
        proof {
            lemma_halves(self.width());
            crate::binary::lemma_bits_val_bound(bools_of(self.bits_le@));
            crate::binary::lemma_bits_val_bound(bools_of(other.bits_le@));
            lemma_msb_value(bools_of(self.bits_le@));
            lemma_msb_value(bools_of(other.bits_le@));
        }
        if self.is_constant() && other.is_constant() {
            let ua = self.to_u128();
            let ub = other.to_u128();
            let half = crate::binary::pow2_u128(w - 1);
            let ok: bool = if !self.signed {
                ua >= ub
            } else {
                let sa = self.bits_le[w - 1].value;
                let sb = other.bits_le[w - 1].value;
                let du = wrapped_diff(ua, ub, w);
                let msb_d = du >= half;
                !(sa != sb && (msb_d == sb))
            };
            proof {
                if self.signed {
                    lemma_signed_sub_overflow(self.uval(), other.uval(), self.width());
                }
            }
            if !ok {
                env.halt("Integer underflow or overflow on subtraction of two constants");
                return self.duplicate();
            }
            let du = wrapped_diff(ua, ub, w);
            let r = Integer::alloc_bits(env, Mode::Constant, du, w, self.signed);
            proof {
                lemma_wrap_relates(self, other, &r);
                lemma_wrap_exact(self.ival() - other.ival(), self.width(), self.signed);
            }
            r
        } else {
            let bits = self.sub_bits(env, other);
            let difference = low_bits_integer(&bits, w, self.signed);
            proof {
                crate::binary::lemma_bits_val_take_is_mod(bools_of(bits@), w as int);
                vstd::arithmetic::power2::lemma_pow2_pos(w as nat);
                vstd::arithmetic::div_mod::lemma_mod_add_multiples_vanish(
                    self.uval() - other.uval(),
                    pow2(w as nat) as int,
                );
                lemma_wrap_relates(self, other, &difference);
                lemma_msb_value(bools_of(bits@));
                lemma_msb_value(bools_of(difference.bits_le@));
            }
            if self.signed {
                proof {
                    assert(difference.bits_le@[w - 1].wf());
                    assert(self.bits_le@[w - 1].wf());
                    assert(other.bits_le@[w - 1].wf());
                }
                let is_diff_signs = self.msb().is_not_equal(env, other.msb());
                let eq_b = difference.msb().is_equal(env, other.msb());
                let is_underflow = is_diff_signs.and(env, &eq_b);
                let zero = crate::environment::LinearCombination::from_constant(Fp::zero());
                proof {
                    assert(!is_underflow.is_constant_spec());
                    vstd::arithmetic::div_mod::lemma_small_mod(bit(is_underflow.value), fp_m());
                }
                env.enforce_eq(crate::types::boolean::duplicate_lc(&is_underflow.lc), zero);
                proof {
                    lemma_signed_sub_overflow(self.uval(), other.uval(), self.width());
                    lemma_wrap_exact_cond(self, other, &difference);
                }
                difference
            } else {
                proof {
                    assert(bits@[w as int].wf());
                    assert(bools_of(bits@).last() == bits@[w as int].value);
                }
                let carry = bits[w].duplicate();
                let one = crate::environment::LinearCombination::from_constant(Fp::one());
                proof {
                    assert(!carry.is_constant_spec());
                    vstd::arithmetic::div_mod::lemma_small_mod(bit(carry.value), fp_m());
                }
                env.enforce_eq(crate::types::boolean::duplicate_lc(&carry.lc), one);
                proof {
                    lemma_wrap_exact_cond(self, other, &difference);
                }
                difference
            }
        }
    }
}

impl Integer {
    /// The field element holding the value of a range of the bits:
    /// `bits[lo] + 2*bits[lo+1] + ...`, free of gates.
    fn field_from_bits_range(env: &mut Environment, bits: &Vec<Boolean>, lo: usize, hi: usize)
        -> (r: Field)
        requires
            bools_wf(bits@),
            lo <= hi <= bits@.len(),
            hi - lo <= 194,
            old(env).wf(),
        ensures
            r.wf(),
            r.value@ == bits_val(bools_of(bits@).subrange(lo as int, hi as int)),
            final (env).vars@ == old(env).vars@,
            final (env).constraints@ == old(env).constraints@,
            final (env).scopes@ == old(env).scopes@,
            final (env).halted == old(env).halted,
            final (env).wf(),
            (forall|t: int| lo <= t < hi ==> !(#[trigger] bits@[t]).is_constant_spec()) && hi
                > lo ==> !r.is_constant_spec(),
    {
        let ghost env0 = *env;
        let ghost s = bools_of(bits@).subrange(lo as int, hi as int);
        let mut acc = Field::zero();
        let mut coeff = Fp::one();
        let mut i: usize = lo;
        proof {
            vstd::arithmetic::power2::lemma2_to64();
            vstd::arithmetic::div_mod::lemma_small_mod(1nat, fp_m());
            assert(s.take(0) =~= Seq::<bool>::empty());
        }
        while i < hi
            invariant
                lo <= i <= hi,
                hi <= bits@.len(),
                bools_wf(bits@),
                s == bools_of(bits@).subrange(lo as int, hi as int),
                env.wf(),
                env.vars@ == env0.vars@,
                env.constraints@ == env0.constraints@,
                env.scopes@ == env0.scopes@,
                env.halted == env0.halted,
                acc.wf(),
                acc.value@ == bits_val(s.take(i - lo)) % fp_m(),
                i > lo && (forall|t: int|
                    lo <= t < hi ==> !(#[trigger] bits@[t]).is_constant_spec())
                    ==> !acc.is_constant_spec(),
                coeff.wf(),
                coeff@ == pow2((i - lo) as nat) % fp_m(),
            decreases hi - i,
        {
            proof {
                assert(bits@[i as int].wf());
                assert(s[i - lo] == bits@[i as int].value);
            }
            let b = &bits[i];
            let coeff_field = Field {
                lc: crate::environment::LinearCombination::from_constant(coeff),
                value: coeff,
            };
            let term = Field::from_boolean(b).mul(env, &coeff_field);
            let next_acc = acc.add(&term);
            let next_coeff = crate::fp::fp_add(&coeff, &coeff);
            proof {
                crate::binary::lemma_bits_val_take_step(s, i - lo);
                crate::types::field::lemma_bit_sum_step(
                    bits_val(s.take(i - lo)) as int,
                    bit(b.value) as int,
                    pow2((i - lo) as nat) as int,
                    acc.value@ as int,
                    term.value@ as int,
                    next_acc.value@ as int,
                );
                crate::types::field::lemma_coeff_double(
                    pow2((i - lo) as nat) as int,
                    coeff@ as int,
                    next_coeff@ as int,
                );
                assert(pow2((i + 1 - lo) as nat) == 2 * pow2((i - lo) as nat)) by {
                    vstd::arithmetic::power2::lemma_pow2_adds(1, (i - lo) as nat);
                    vstd::arithmetic::power2::lemma2_to64();
                }
            }
            acc = next_acc;
            coeff = next_coeff;
            i = i + 1;
        }
        proof {
            assert(s.take((hi - lo) as int) =~= s);
            crate::binary::lemma_bits_val_bound(s);
            lemma_pow2_194_below();
            vstd::arithmetic::power2::lemma_pow2_strictly_increases(s.len(), 195);
            vstd::arithmetic::div_mod::lemma_small_mod(bits_val(s), fp_m());
        }
        acc
    }

    /// Whether any bit in the range is set: a chain of disjunctions.
    fn any_set(env: &mut Environment, bits: &Vec<Boolean>, lo: usize, hi: usize) -> (r: Boolean)
        requires
            bools_wf(bits@),
            lo <= hi <= bits@.len(),
            old(env).wf(),
        ensures
            r.wf(),
            r.value <==> bits_val(bools_of(bits@).subrange(lo as int, hi as int)) != 0,
            lo < hi && (forall|t: int|
                lo <= t < hi ==> !(#[trigger] bits@[t]).is_constant_spec())
                ==> !r.is_constant_spec(),
            lo < hi && (forall|t: int|
                lo <= t < hi ==> !(#[trigger] bits@[t]).is_constant_spec()) ==> final (
            env).vars@ == old(env).vars@ + Seq::new((hi - lo - 1) as nat, |i: int| Mode::Private)
                && final (env).constraints@.len() == old(env).constraints@.len() + (hi - lo - 1),
            final (env).wf(),
            final (env).halted == old(env).halted,
            final (env).scopes@ == old(env).scopes@,
            final (env).all_gates_hold() <==> old(env).all_gates_hold(),
    {
        let ghost env0 = *env;
        let ghost s = bools_of(bits@).subrange(lo as int, hi as int);
        let mut acc = Boolean::constant(false);
        let mut i: usize = lo;
        while i < hi
            invariant
                lo <= i <= hi,
                hi <= bits@.len(),
                bools_wf(bits@),
                s == bools_of(bits@).subrange(lo as int, hi as int),
                env.wf(),
                env.halted == env0.halted,
                env.scopes@ == env0.scopes@,
                env.all_gates_hold() <==> env0.all_gates_hold(),
                acc.wf(),
                acc.value <==> (exists|t: int| 0 <= t < i - lo && s[t]),
                i == lo ==> acc.is_constant_spec(),
                i > lo && (forall|t: int|
                    lo <= t < hi ==> !(#[trigger] bits@[t]).is_constant_spec())
                    ==> !acc.is_constant_spec(),
                i == lo ==> env.vars@ == env0.vars@ && env.constraints@ == env0.constraints@,
                i > lo && (forall|t: int|
                    lo <= t < hi ==> !(#[trigger] bits@[t]).is_constant_spec()) ==> env.vars@
                    == env0.vars@ + Seq::new((i - lo - 1) as nat, |t: int| Mode::Private)
                    && env.constraints@.len() == env0.constraints@.len() + (i - lo - 1),
            decreases hi - i,
        {
            proof {
                assert(bits@[i as int].wf());
                assert(s[i - lo] == bits@[i as int].value);
            }
            let next = acc.or(env, &bits[i]);
            proof {
                if i == lo {
                    assert(env.vars@ =~= env0.vars@ + Seq::new(0nat, |t: int| Mode::Private));
                }
                if i > lo && (forall|t: int|
                    lo <= t < hi ==> !(#[trigger] bits@[t]).is_constant_spec()) {
                    assert(env.vars@ =~= env0.vars@ + Seq::new(
                        (i - lo) as nat,
                        |t: int| Mode::Private,
                    ));
                }
                if next.value {
                    if acc.value {
                        let ghost t0 = choose|t: int| 0 <= t < i - lo && s[t];
                        assert(0 <= t0 < i + 1 - lo && s[t0]);
                    } else {
                        assert(0 <= i - lo < i + 1 - lo && s[i - lo]);
                    }
                }
            }
            acc = next;
            i = i + 1;
        }
        proof {
            lemma_bits_val_zero_iff(s);
        }
        acc
    }
}

impl Integer {
    /// Multiplies two integers through the field, returning the low
    /// `w` bits as the wrapped product and a flag that is set exactly
    /// when the full product overflows the width. Widths up to 64 bits
    /// use one field product decomposed into twice the width; the
    /// 128-bit width splits each operand into 64-bit halves, since the
    /// full product no longer fits the field.
    /// The product through the field with an explicit carry: one field
    /// multiplication, decomposed into twice the width.
    /// into twice the width.
    #[verifier::rlimit(100)]
    fn mul_with_carry_narrow(&self, env: &mut Environment, other: &Integer) -> (res: (
        Integer,
        Boolean,
    ))
        requires
            self.wf(),
            other.wf(),
            self.width() == other.width(),
            self.width() < 128,
            !(self.is_constant_spec() && other.is_constant_spec()),
            old(env).wf(),
        ensures
            res.0.wf(),
            res.0.width() == self.width(),
            res.0.signed == self.signed,
            !res.0.is_constant_spec(),
            res.0.uval() == (self.uval() * other.uval()) % pow2(self.width()),
            res.1.wf(),
            !res.1.is_constant_spec(),
            res.1.value <==> self.uval() * other.uval() >= pow2(self.width()),
            final (env).wf(),
            final (env).halted == old(env).halted,
            final (env).scopes@ == old(env).scopes@,
            final (env).all_gates_hold() <==> old(env).all_gates_hold(),
            !(self.is_constant_spec() || other.is_constant_spec()) ==> final (env).vars@ == old(
                env,
            ).vars@ + Seq::new((3 * self.width()) as nat, |i: int| Mode::Private) && final (
            env).constraints@.len() == old(env).constraints@.len() + 3 * self.width() + 1,
            (self.is_constant_spec() || other.is_constant_spec()) ==> final (env).vars@ == old(
                env,
            ).vars@ + Seq::new((3 * self.width() - 1) as nat, |i: int| Mode::Private) && final (
            env).constraints@.len() == old(env).constraints@.len() + 3 * self.width(),
    {
        let w = self.bits_le.len();
        let ghost env0 = *env;
        let ghost p = self.uval() * other.uval();
        proof {
            lemma_halves(self.width());
            crate::binary::lemma_bits_val_bound(bools_of(self.bits_le@));
            crate::binary::lemma_bits_val_bound(bools_of(other.bits_le@));
            vstd::arithmetic::power2::lemma_pow2_adds(self.width(), self.width());
            vstd::arithmetic::power2::lemma_pow2_pos(self.width());
            assert(p < pow2((2 * self.width()) as nat)) by (nonlinear_arith)
                requires
                    self.uval() < pow2(self.width()) && other.uval() < pow2(self.width()) && p
                        == self.uval() * other.uval() && pow2((2 * self.width()) as nat) == pow2(
                        self.width(),
                    ) * pow2(self.width()),
            ;
            if !self.is_constant_spec() {
                assert(!self.bits_le@[0].is_constant_spec());
            } else {
                assert(!other.bits_le@[0].is_constant_spec());
            }
        }
        let af = self.to_field(env);
        let bf = other.to_field(env);
        let z = af.mul(env, &bf);
        proof {
            lemma_width_pow2_below_modulus((2 * w) as nat);
            vstd::arithmetic::div_mod::lemma_small_mod(p, fp_m());
            assert(z.value@ == p);
            assert(!z.is_constant_spec());
            vstd::arithmetic::div_mod::lemma_small_mod(p, pow2((2 * w) as nat));
        }
        let bits2 = z.to_lower_bits_le(env, 2 * w);
        let product = low_bits_integer(&bits2, w, self.signed);
        let carry_nz = Integer::any_set(env, &bits2, w, 2 * w);
        proof {
            crate::binary::lemma_bits_val_take_is_mod(bools_of(bits2@), w as int);
            crate::binary::lemma_bits_val_skip_is_div(bools_of(bits2@), w as int);
            assert(bools_of(bits2@).subrange(w as int, (2 * w) as int) =~= bools_of(
                bits2@,
            ).skip(w as int));
            lemma_div_nonzero_iff(p as int, pow2(self.width()) as int);
            if !(self.is_constant_spec() || other.is_constant_spec()) {
                assert(env.vars@ =~= env0.vars@ + Seq::new(
                    (3 * self.width()) as nat,
                    |i: int| Mode::Private,
                ));
            } else {
                assert(env.vars@ =~= env0.vars@ + Seq::new(
                    (3 * self.width() - 1) as nat,
                    |i: int| Mode::Private,
                ));
            }
        }
        (product, carry_nz)
    }

}

impl Integer {
    /// Multiplies two integers through the field, returning the low
    /// `w` bits as the wrapped product and a flag set exactly when the
    /// full product overflows the width. Widths up to 64 bits use one
    /// field product decomposed into twice the width; the 128-bit width
    /// splits each operand into 64-bit halves, since the full product no
    /// longer fits the field.
    fn mul_with_carry(&self, env: &mut Environment, other: &Integer) -> (res: (Integer, Boolean))
        requires
            self.wf(),
            other.wf(),
            self.width() == other.width(),
            !(self.is_constant_spec() && other.is_constant_spec()),
            old(env).wf(),
        ensures
            res.0.wf(),
            res.0.width() == self.width(),
            res.0.signed == self.signed,
            !res.0.is_constant_spec(),
            res.0.uval() == (self.uval() * other.uval()) % pow2(self.width()),
            res.1.wf(),
            !res.1.is_constant_spec(),
            res.1.value <==> self.uval() * other.uval() >= pow2(self.width()),
            final (env).wf(),
            final (env).halted == old(env).halted,
            final (env).scopes@ == old(env).scopes@,
            final (env).all_gates_hold() <==> old(env).all_gates_hold(),
            self.width() < 128 && !(self.is_constant_spec() || other.is_constant_spec())
                ==> final (env).vars@ == old(env).vars@ + Seq::new(
                (3 * self.width()) as nat,
                |i: int| Mode::Private,
            ) && final (env).constraints@.len() == old(env).constraints@.len() + 3
                * self.width() + 1,
            self.width() < 128 && (self.is_constant_spec() || other.is_constant_spec())
                ==> final (env).vars@ == old(env).vars@ + Seq::new(
                (3 * self.width() - 1) as nat,
                |i: int| Mode::Private,
            ) && final (env).constraints@.len() == old(env).constraints@.len() + 3
                * self.width(),
    {
        if self.bits_le.len() < 128 {
            self.mul_with_carry_narrow(env, other)
        } else {
            self.mul_with_carry_wide(env, other)
        }
    }

    /// The fields holding the low and high 64-bit halves of the bits.
    fn half_fields(env: &mut Environment, bits: &Vec<Boolean>) -> (res: (Field, Field))
        requires
            bools_wf(bits@),
            bits@.len() == 128,
            old(env).wf(),
        ensures
            res.0.wf(),
            res.1.wf(),
            res.0.value@ == bits_val(bools_of(bits@).subrange(0, 64)),
            res.1.value@ == bits_val(bools_of(bits@).subrange(64, 128)),
            (forall|t: int| 0 <= t < 128 ==> !(#[trigger] bits@[t]).is_constant_spec())
                ==> !res.0.is_constant_spec() && !res.1.is_constant_spec(),
            final (env).vars@ == old(env).vars@,
            final (env).constraints@ == old(env).constraints@,
            final (env).scopes@ == old(env).scopes@,
            final (env).halted == old(env).halted,
            final (env).wf(),
    {
        let lo = Integer::field_from_bits_range(env, bits, 0, 64);
        let hi = Integer::field_from_bits_range(env, bits, 64, 128);
        (lo, hi)
    }

    /// The low field element of the split product: the low partial
    /// product plus the two middle ones shifted by 64 bits; linear, so
    /// free of gates.
    #[verifier::rlimit(100)]
    fn low_part(env: &mut Environment, z0: &Field, c1: &Field, c2: &Field) -> (r: Field)
        requires
            z0.wf(),
            c1.wf(),
            c2.wf(),
            old(env).wf(),
        ensures
            r.wf(),
            r.value@ == (z0.value@ + (((c1.value@ + c2.value@) % fp_m())
                * 0x1_0000_0000_0000_0000nat) % fp_m()) % fp_m(),
            !z0.is_constant_spec() ==> !r.is_constant_spec(),
            final (env).vars@ == old(env).vars@,
            final (env).constraints@ == old(env).constraints@,
            final (env).scopes@ == old(env).scopes@,
            final (env).halted == old(env).halted,
            final (env).wf(),
    {
        let zm = c1.add(c2);
        let shift = Field {
            lc: crate::environment::LinearCombination::from_constant(
                crate::fp::Fp::from_u128(0x1_0000_0000_0000_0000),
            ),
            value: crate::fp::Fp::from_u128(0x1_0000_0000_0000_0000),
        };
        let zm_shifted = zm.mul(env, &shift);
        z0.add(&zm_shifted)
    }

    /// The four partial products of the two operands' 64-bit halves.
    #[verifier::rlimit(100)]
    fn quarter_products(env: &mut Environment, abits: &Vec<Boolean>, bbits: &Vec<Boolean>)
        -> (res: (Field, Field, Field, Field))
        requires
            bools_wf(abits@),
            bools_wf(bbits@),
            abits@.len() == 128,
            bbits@.len() == 128,
            old(env).wf(),
        ensures
            res.0.wf(),
            res.1.wf(),
            res.2.wf(),
            res.3.wf(),
            res.0.value@ == bits_val(bools_of(abits@).subrange(0, 64)) * bits_val(
                bools_of(bbits@).subrange(0, 64),
            ) % fp_m(),
            res.1.value@ == bits_val(bools_of(abits@).subrange(0, 64)) * bits_val(
                bools_of(bbits@).subrange(64, 128),
            ) % fp_m(),
            res.2.value@ == bits_val(bools_of(abits@).subrange(64, 128)) * bits_val(
                bools_of(bbits@).subrange(0, 64),
            ) % fp_m(),
            res.3.value@ == bits_val(bools_of(abits@).subrange(64, 128)) * bits_val(
                bools_of(bbits@).subrange(64, 128),
            ) % fp_m(),
            (forall|t: int| 0 <= t < 128 ==> !(#[trigger] abits@[t]).is_constant_spec())
                || (forall|t: int| 0 <= t < 128 ==> !(#[trigger] bbits@[t]).is_constant_spec())
                ==> !res.0.is_constant_spec(),
            final (env).wf(),
            final (env).halted == old(env).halted,
            final (env).scopes@ == old(env).scopes@,
            final (env).all_gates_hold() <==> old(env).all_gates_hold(),
    {
        let (a0, a1) = Integer::half_fields(env, abits);
        let (b0, b1) = Integer::half_fields(env, bbits);
        Integer::partial_products(env, &a0, &a1, &b0, &b1)
    }

    /// The four partial products of the 64-bit halves: one gate each
    /// when both factors are non-constant, none otherwise.
    #[verifier::rlimit(100)]
    fn partial_products(env: &mut Environment, a0: &Field, a1: &Field, b0: &Field, b1: &Field)
        -> (res: (Field, Field, Field, Field))
        requires
            a0.wf(),
            a1.wf(),
            b0.wf(),
            b1.wf(),
            old(env).wf(),
        ensures
            res.0.wf(),
            res.1.wf(),
            res.2.wf(),
            res.3.wf(),
            res.0.value@ == (a0.value@ * b0.value@) % fp_m(),
            res.1.value@ == (a0.value@ * b1.value@) % fp_m(),
            res.2.value@ == (a1.value@ * b0.value@) % fp_m(),
            res.3.value@ == (a1.value@ * b1.value@) % fp_m(),
            res.0.is_constant_spec() == (a0.is_constant_spec() && b0.is_constant_spec()),
            final (env).wf(),
            final (env).halted == old(env).halted,
            final (env).scopes@ == old(env).scopes@,
            final (env).all_gates_hold() <==> old(env).all_gates_hold(),
    {
        let z0 = a0.mul(env, b0);
        let c1 = a0.mul(env, b1);
        let c2 = a1.mul(env, b0);
        let z2 = a1.mul(env, b1);
        (z0, c1, c2, z2)
    }

    /// The two field elements of the split 128-bit product: the low
    /// part `a0*b0 + 2^64*(a0*b1 + a1*b0)` and the high partial product
    /// `a1*b1`.
    #[verifier::rlimit(100)]
    fn split_partial_products(&self, env: &mut Environment, other: &Integer) -> (res: (
        Field,
        Field,
    ))
        requires
            self.wf(),
            other.wf(),
            self.width() == other.width(),
            self.width() == 128,
            !(self.is_constant_spec() && other.is_constant_spec()),
            old(env).wf(),
        ensures
            res.0.wf(),
            res.1.wf(),
            !res.0.is_constant_spec(),
            res.1.value@ == bits_val(bools_of(self.bits_le@).subrange(64, 128)) * bits_val(
                bools_of(other.bits_le@).subrange(64, 128),
            ) % fp_m(),
            res.0.value@ == ((bits_val(bools_of(self.bits_le@).subrange(0, 64)) * bits_val(
                bools_of(other.bits_le@).subrange(0, 64),
            ) % fp_m()) + (((bits_val(bools_of(self.bits_le@).subrange(0, 64)) * bits_val(
                bools_of(other.bits_le@).subrange(64, 128),
            ) % fp_m()) + (bits_val(bools_of(self.bits_le@).subrange(64, 128)) * bits_val(
                bools_of(other.bits_le@).subrange(0, 64),
            ) % fp_m())) % fp_m()) * 0x1_0000_0000_0000_0000nat % fp_m()) % fp_m(),
            final (env).wf(),
            final (env).halted == old(env).halted,
            final (env).scopes@ == old(env).scopes@,
            final (env).all_gates_hold() <==> old(env).all_gates_hold(),
    {
        proof {
            lemma_operand_bits_nonconstant(self, other);
        }
        let (z0, c1, c2, z2) = Integer::quarter_products(env, &self.bits_le, &other.bits_le);
        let s_field = Integer::low_part(env, &z0, &c1, &c2);
        (s_field, z2)
    }

    /// The 128-bit product: the low field element decomposed into 194
    /// bits, the carry reassembled from its high bits and the high
    /// partial product and decomposed into the 128 carry bits.
    #[verifier::rlimit(100)]
    fn mul_with_carry_wide(&self, env: &mut Environment, other: &Integer) -> (res: (
        Integer,
        Boolean,
    ))
        requires
            self.wf(),
            other.wf(),
            self.width() == other.width(),
            self.width() == 128,
            !(self.is_constant_spec() && other.is_constant_spec()),
            old(env).wf(),
        ensures
            res.0.wf(),
            res.0.width() == self.width(),
            res.0.signed == self.signed,
            !res.0.is_constant_spec(),
            res.0.uval() == (self.uval() * other.uval()) % pow2(self.width()),
            res.1.wf(),
            !res.1.is_constant_spec(),
            res.1.value <==> self.uval() * other.uval() >= pow2(self.width()),
            final (env).wf(),
            final (env).halted == old(env).halted,
            final (env).scopes@ == old(env).scopes@,
            final (env).all_gates_hold() <==> old(env).all_gates_hold(),
    {
        let ghost p = self.uval() * other.uval();
        let (s_field, z2) = self.split_partial_products(env, other);
        proof {
            lemma_split_combined(self, other, s_field.value@, z2.value@);
            vstd::arithmetic::div_mod::lemma_small_mod(s_field.value@, pow2(194));
        }
        let bits_s = s_field.to_lower_bits_le(env, 194);
        let product = low_bits_integer(&bits_s, 128, self.signed);
        let sh = Integer::field_from_bits_range(env, &bits_s, 128, 194);
        let carry_field = sh.add(&z2);
        proof {
            crate::binary::lemma_bits_val_take_is_mod(bools_of(bits_s@), 128);
            crate::binary::lemma_bits_val_skip_is_div(bools_of(bits_s@), 128);
            assert(bools_of(bits_s@).subrange(128, 194) =~= bools_of(bits_s@).skip(128));
            lemma_carry_assembly(
                p as int,
                s_field.value@ as int,
                z2.value@ as int,
                product.uval() as int,
                sh.value@ as int,
            );
            lemma_width_pow2_below_modulus(128);
            vstd::arithmetic::div_mod::lemma_small_mod((sh.value@ + z2.value@) as nat, fp_m());
            assert(carry_field.value@ == sh.value@ + z2.value@);
            assert(!sh.is_constant_spec());
            assert(!carry_field.is_constant_spec());
        }
        let carry_bits = carry_field.to_lower_bits_le(env, 128);
        let carry_nz = Integer::any_set(env, &carry_bits, 0, 128);
        proof {
            assert(bools_of(carry_bits@).subrange(0, 128) =~= bools_of(carry_bits@));
            vstd::arithmetic::div_mod::lemma_small_mod(carry_field.value@, pow2(128));
            vstd::arithmetic::power2::lemma_pow2_pos(128);
            lemma_div_nonzero_iff(p as int, pow2(128) as int);
        }
        (product, carry_nz)
    }

    /// The wrapped absolute value: the magnitude of the signed value,
    /// with the minimum mapping to itself.
    pub fn abs_wrapped(&self, env: &mut Environment) -> (r: Integer)
        requires
            self.wf(),
            self.signed,
            old(env).wf(),
        ensures
            r.wf(),
            r.width() == self.width(),
            r.signed == self.signed,
            r.uval() == (if self.sval() >= 0 {
                self.sval()
            } else {
                -self.sval()
            }),
            r.is_constant_spec() == self.is_constant_spec(),
            final (env).wf(),
            final (env).halted == old(env).halted,
            final (env).scopes@ == old(env).scopes@,
            final (env).all_gates_hold() <==> old(env).all_gates_hold(),
    {
        let w = self.bits_le.len();
        proof {
            lemma_msb_value(bools_of(self.bits_le@));
            crate::binary::lemma_bits_val_bound(bools_of(self.bits_le@));
            lemma_halves(self.width());
            vstd::arithmetic::power2::lemma_pow2_pos(self.width());
            if !self.is_constant_spec() {
                assert(!self.bits_le@[(w - 1) as int].is_constant_spec());
            }
        }
        let zero = Integer::zero(env, w, true);
        let negated = zero.sub_wrapped(env, self);
        let r = Integer::ternary(env, self.msb(), &negated, self);
        proof {
            if self.bits_le@.last().value {
                assert(self.uval() >= pow2((self.width() - 1) as nat));
                vstd::arithmetic::div_mod::lemma_mod_add_multiples_vanish(
                    0 - self.uval(),
                    pow2(self.width()) as int,
                );
                vstd::arithmetic::div_mod::lemma_small_mod(
                    (pow2(self.width()) - self.uval()) as nat,
                    pow2(self.width()),
                );
                assert(negated.uval() == pow2(self.width()) - self.uval());
            } else {
                vstd::arithmetic::div_mod::lemma_small_mod(self.uval(), pow2(self.width()));
            }
        }
        r
    }

    /// Checked multiplication. On two constants an out-of-range product
    /// is fatal and halts the session. Otherwise the product of the
    /// magnitudes is computed through the field with an explicit carry,
    /// and the system is satisfiable exactly when the true product fits
    /// the width: the carry must be clear, a product of same-signed
    /// operands must not pass the signed maximum, and a product of
    /// differently-signed operands must not pass the magnitude of the
    /// signed minimum. The widths up to 64 bits are supported; the full
    /// product of two 128-bit integers does not fit the field in one
    /// piece.
    #[verifier::rlimit(100)]
    pub fn mul_checked(&self, env: &mut Environment, other: &Integer) -> (r: Integer)
        requires
            self.wf(),
            other.wf(),
            self.width() == other.width(),
            self.signed == other.signed,
            old(env).wf(),
        ensures
            r.wf(),
            r.width() == self.width(),
            r.signed == self.signed,
            final (env).wf(),
            final (env).scopes@ == old(env).scopes@,
            self.is_constant_spec() && other.is_constant_spec() ==> {
                &&& (final (env).halted <==> old(env).halted || !fits(
                    self.ival() * other.ival(),
                    self.width(),
                    self.signed,
                ))
                &&& (final (env).all_gates_hold() <==> old(env).all_gates_hold())
                &&& (fits(self.ival() * other.ival(), self.width(), self.signed) ==> r.ival()
                    == self.ival() * other.ival() && final (env).vars@ == old(env).vars@
                    + Seq::new(self.width(), |i: int| Mode::Constant) && final (
                env).constraints@ == old(env).constraints@)
                &&& (!fits(self.ival() * other.ival(), self.width(), self.signed) ==> final (
                env).vars@ == old(env).vars@ && final (env).constraints@ == old(
                env).constraints@)
            },
            !(self.is_constant_spec() && other.is_constant_spec()) ==> {
                &&& final (env).halted == old(env).halted
                &&& (final (env).all_gates_hold() <==> old(env).all_gates_hold() && fits(
                    self.ival() * other.ival(),
                    self.width(),
                    self.signed,
                ))
                &&& (fits(self.ival() * other.ival(), self.width(), self.signed) ==> r.ival()
                    == self.ival() * other.ival())
                &&& (!self.signed && self.width() < 128 && !(self.is_constant_spec()
                    || other.is_constant_spec()) ==> final (env).vars@ == old(env).vars@
                    + Seq::new((3 * self.width()) as nat, |i: int| Mode::Private) && final (
                env).constraints@.len() == old(env).constraints@.len() + 3 * self.width() + 2)
                &&& (!self.signed && self.width() < 128 && (self.is_constant_spec()
                    || other.is_constant_spec()) ==> final (env).vars@ == old(env).vars@
                    + Seq::new((3 * self.width() - 1) as nat, |i: int| Mode::Private) && final (
                env).constraints@.len() == old(env).constraints@.len() + 3 * self.width() + 1)
            },
    {
        let w = self.bits_le.len();
        proof {
            lemma_halves(self.width());
            lemma_msb_value(bools_of(self.bits_le@));
            lemma_msb_value(bools_of(other.bits_le@));
            crate::binary::lemma_bits_val_bound(bools_of(self.bits_le@));
            crate::binary::lemma_bits_val_bound(bools_of(other.bits_le@));
        }
        if self.is_constant() && other.is_constant() {
            let ua = self.to_u128();
            let ub = other.to_u128();
            if !self.signed {
                proof {
                    crate::binary::lemma_pow2_large();
                    if w < 128 {
                        vstd::arithmetic::power2::lemma_pow2_strictly_increases(w as nat, 128);
                    }
                }
                let (ok, prod): (bool, u128) = match ua.checked_mul(ub) {
                    None => (false, 0),
                    Some(v) => {
                        if w == 128 {
                            (true, v)
                        } else {
                            (v < crate::binary::pow2_u128(w), v)
                        }
                    },
                };
                if !ok {
                    env.halt("Integer overflow on multiplication of two constants");
                    return self.duplicate();
                }
                let r = Integer::alloc_bits(env, Mode::Constant, prod, w, self.signed);
                proof {
                    lemma_msb_value(bools_of(r.bits_le@));
                }
                r
            } else {
                let half = crate::binary::pow2_u128(w - 1);
                let sa = self.bits_le[w - 1].value;
                let sb = other.bits_le[w - 1].value;
                proof {
                    vstd::arithmetic::power2::lemma_pow2_pos(self.width());
                }
                let ma = if sa {
                    wrapped_diff(0, ua, w)
                } else {
                    ua
                };
                let mb = if sb {
                    wrapped_diff(0, ub, w)
                } else {
                    ub
                };
                proof {
                    lemma_abs_value(self);
                    lemma_abs_value(other);
                    if sa {
                        vstd::arithmetic::div_mod::lemma_mod_add_multiples_vanish(
                            0 - self.uval(),
                            pow2(self.width()) as int,
                        );
                        vstd::arithmetic::div_mod::lemma_small_mod(
                            (pow2(self.width()) - self.uval()) as nat,
                            pow2(self.width()),
                        );
                    } else {
                        vstd::arithmetic::div_mod::lemma_small_mod(
                            self.uval(),
                            pow2(self.width()),
                        );
                    }
                    if sb {
                        vstd::arithmetic::div_mod::lemma_mod_add_multiples_vanish(
                            0 - other.uval(),
                            pow2(self.width()) as int,
                        );
                        vstd::arithmetic::div_mod::lemma_small_mod(
                            (pow2(self.width()) - other.uval()) as nat,
                            pow2(self.width()),
                        );
                    } else {
                        vstd::arithmetic::div_mod::lemma_small_mod(
                            other.uval(),
                            pow2(self.width()),
                        );
                    }
                    lemma_signed_mul_analysis(self, other, ma as nat, mb as nat);
                    crate::binary::lemma_pow2_large();
                    if w < 128 {
                        vstd::arithmetic::power2::lemma_pow2_strictly_increases(
                            (w - 1) as nat,
                            127,
                        );
                    }
                }
                let same = sa == sb;
                let (ok, p): (bool, u128) = match ma.checked_mul(mb) {
                    None => (false, 0),
                    Some(p) => (
                        if same {
                            p < half
                        } else {
                            p <= half
                        },
                        p,
                    ),
                };
                if !ok {
                    env.halt("Integer overflow on multiplication of two constants");
                    return self.duplicate();
                }
                let value = if same {
                    p
                } else {
                    wrapped_diff(0, p, w)
                };
                proof {
                    vstd::arithmetic::div_mod::lemma_small_mod(p as nat, pow2(self.width()));
                    if !same && p > 0 {
                        vstd::arithmetic::div_mod::lemma_mod_add_multiples_vanish(
                            0 - (p as nat),
                            pow2(self.width()) as int,
                        );
                        vstd::arithmetic::div_mod::lemma_small_mod(
                            (pow2(self.width()) - p) as nat,
                            pow2(self.width()),
                        );
                    }
                    if !same && p == 0 {
                        vstd::arithmetic::div_mod::lemma_small_mod(0nat, pow2(self.width()));
                    }
                }
                let r = Integer::alloc_bits(env, Mode::Constant, value, w, self.signed);
                proof {
                    lemma_msb_value(bools_of(r.bits_le@));
                    lemma_signed_mul_result(self, other, &r, (ma * mb) as nat);
                }
                r
            }
        } else if !self.signed {
            let (product, carry_nz) = self.mul_with_carry(env, other);
            let zero = crate::environment::LinearCombination::from_constant(Fp::zero());
            proof {
                assert(!carry_nz.is_constant_spec());
                vstd::arithmetic::div_mod::lemma_small_mod(bit(carry_nz.value), fp_m());
            }
            env.enforce_eq(crate::types::boolean::duplicate_lc(&carry_nz.lc), zero);
            proof {
                if self.uval() * other.uval() < pow2(self.width()) {
                    vstd::arithmetic::div_mod::lemma_small_mod(
                        self.uval() * other.uval(),
                        pow2(self.width()),
                    );
                }
            }
            product
        } else {
            let abs_a = self.abs_wrapped(env);
            let abs_b = other.abs_wrapped(env);
            proof {
                lemma_abs_value(self);
                lemma_abs_value(other);
            }
            let (product, carry_nz) = abs_a.mul_with_carry(env, &abs_b);
            let same_sign = self.msb().is_equal(env, other.msb());
            proof {
                lemma_msb_value(bools_of(product.bits_le@));
                assert(!product.bits_le@[(w - 1) as int].is_constant_spec());
                if !self.is_constant_spec() {
                    assert(!self.bits_le@[(w - 1) as int].is_constant_spec());
                } else {
                    assert(!other.bits_le@[(w - 1) as int].is_constant_spec());
                }
            }
            let pos_over = same_sign.and(env, product.msb());
            let lower_nz = Integer::any_set(env, &product.bits_le, 0, w - 1);
            let pm_masked = product.msb().and(env, &lower_nz.not());
            let neg_le_min = product.msb().not().or(env, &pm_masked);
            let neg_under = same_sign.not().and(env, &neg_le_min.not());
            let o1 = carry_nz.or(env, &pos_over);
            let overflow = o1.or(env, &neg_under);
            let zero = crate::environment::LinearCombination::from_constant(Fp::zero());
            proof {
                assert(!overflow.is_constant_spec());
                vstd::arithmetic::div_mod::lemma_small_mod(bit(overflow.value), fp_m());
            }
            env.enforce_eq(crate::types::boolean::duplicate_lc(&overflow.lc), zero);
            let zero_int = Integer::zero(env, w, true);
            let neg_p = zero_int.sub_wrapped(env, &product);
            let r = Integer::ternary(env, &same_sign, &product, &neg_p);
            proof {
                let ghost p = abs_a.uval() * abs_b.uval();
                let ghost pu = product.uval();
                let ghost hh = pow2((w - 1) as nat);
                let ghost mm = pow2(w as nat);
                assert(bools_of(product.bits_le@).subrange(0, (w - 1) as int) =~= bools_of(
                    product.bits_le@,
                ).take((w - 1) as int));
                crate::binary::lemma_bits_val_take_is_mod(
                    bools_of(product.bits_le@),
                    (w - 1) as int,
                );
                lemma_signed_mul_analysis(self, other, abs_a.uval(), abs_b.uval());
                lemma_msb_value(bools_of(r.bits_le@));
                crate::binary::lemma_bits_val_bound(bools_of(product.bits_le@));
                vstd::arithmetic::power2::lemma_pow2_pos(self.width());
                // how each indicator reads off the wrapped magnitude product
                assert(product.bits_le@.last().value <==> pu >= hh);
                if pu < hh {
                    vstd::arithmetic::div_mod::lemma_small_mod(pu, hh);
                } else {
                    vstd::arithmetic::div_mod::lemma_mod_sub_multiples_vanish(
                        pu as int,
                        hh as int,
                    );
                    vstd::arithmetic::div_mod::lemma_small_mod((pu - hh) as nat, hh);
                }
                assert(lower_nz.value <==> pu % hh != 0);
                assert(neg_le_min.value <==> pu <= hh);
                if p < mm {
                    vstd::arithmetic::div_mod::lemma_small_mod(p, pow2(self.width()));
                }
                assert(!overflow.value <==> (if same_sign.value {
                    p < hh
                } else {
                    p <= hh
                }));
                vstd::arithmetic::div_mod::lemma_mod_add_multiples_vanish(
                    0 - product.uval(),
                    pow2(self.width()) as int,
                );
                if product.uval() > 0 {
                    vstd::arithmetic::div_mod::lemma_small_mod(
                        (pow2(self.width()) - product.uval()) as nat,
                        pow2(self.width()),
                    );
                } else {
                    vstd::arithmetic::div_mod::lemma_small_mod(0nat, pow2(self.width()));
                }
                lemma_signed_mul_result(self, other, &r, p);
            }
            r
        }
    }
}

impl Integer {
    /// Whether the integer is zero.
    pub fn is_zero(&self, env: &mut Environment) -> (r: Boolean)
        requires
            self.wf(),
            old(env).wf(),
        ensures
            r.wf(),
            r.value == (self.ival() == 0),
            final (env).wf(),
            final (env).halted == old(env).halted,
            final (env).scopes@ == old(env).scopes@,
            final (env).all_gates_hold() <==> old(env).all_gates_hold(),
    {
        let w = self.bits_le.len();
        let zero = Integer::zero(env, w, self.signed);
        self.is_equal(env, &zero)
    }

    /// Whether the integer is one.
    pub fn is_one(&self, env: &mut Environment) -> (r: Boolean)
        requires
            self.wf(),
            old(env).wf(),
        ensures
            r.wf(),
            r.value == (self.ival() == 1),
            final (env).wf(),
            final (env).halted == old(env).halted,
            final (env).scopes@ == old(env).scopes@,
            final (env).all_gates_hold() <==> old(env).all_gates_hold(),
    {
        let w = self.bits_le.len();
        let one = Integer::one(env, w, self.signed);
        self.is_equal(env, &one)
    }
}

/// The magnitude of a signed integer read from its bits.
proof fn lemma_abs_value(a: &Integer)
    requires
        a.wf(),
        a.signed,
    ensures
        (if a.sval() >= 0 {
            a.sval()
        } else {
            -a.sval()
        }) == (if a.bits_le@.last().value {
            pow2(a.width()) - a.uval()
        } else {
            a.uval() as int
        }),
        (if a.sval() >= 0 {
            a.sval()
        } else {
            -a.sval()
        }) <= pow2((a.width() - 1) as nat),
{
    lemma_msb_value(bools_of(a.bits_le@));
    crate::binary::lemma_bits_val_bound(bools_of(a.bits_le@));
    lemma_halves(a.width());
}

/// The sign analysis of a signed product: the true product is the
/// magnitude product with the sign given by the operand signs, it fits
/// exactly when the flags are clear, and its wrapped bits are the
/// wrapped magnitude product or its negation.
proof fn lemma_signed_mul_analysis(a: &Integer, b: &Integer, ma: nat, mb: nat)
    requires
        a.wf(),
        b.wf(),
        a.signed,
        b.signed,
        a.width() == b.width(),
        ma == (if a.sval() >= 0 {
            a.sval()
        } else {
            -a.sval()
        }),
        mb == (if b.sval() >= 0 {
            b.sval()
        } else {
            -b.sval()
        }),
    ensures
        a.sval() * b.sval() == (if (a.bits_le@.last().value == b.bits_le@.last().value) {
            (ma * mb) as int
        } else {
            -((ma * mb) as int)
        }),
        fits(a.sval() * b.sval(), a.width(), true) <==> (if (a.bits_le@.last().value
            == b.bits_le@.last().value) {
            ma * mb < pow2((a.width() - 1) as nat)
        } else {
            ma * mb <= pow2((a.width() - 1) as nat)
        }),
{
    lemma_msb_value(bools_of(a.bits_le@));
    lemma_msb_value(bools_of(b.bits_le@));
    crate::binary::lemma_bits_val_bound(bools_of(a.bits_le@));
    crate::binary::lemma_bits_val_bound(bools_of(b.bits_le@));
    lemma_halves(a.width());
    let sa = a.sval();
    let sb = b.sval();
    assert(a.bits_le@.last().value <==> sa < 0);
    assert(b.bits_le@.last().value <==> sb < 0);
    if sa >= 0 && sb >= 0 {
        assert(sa * sb == ma * mb) by (nonlinear_arith)
            requires
                sa == ma && sb == mb,
        ;
    } else if sa < 0 && sb < 0 {
        assert(sa * sb == ma * mb) by (nonlinear_arith)
            requires
                sa == -(ma as int) && sb == -(mb as int),
        ;
    } else if sa < 0 {
        assert(sa * sb == -((ma * mb) as int)) by (nonlinear_arith)
            requires
                sa == -(ma as int) && sb == mb,
        ;
    } else {
        assert(sa * sb == -((ma * mb) as int)) by (nonlinear_arith)
            requires
                sa == ma && sb == -(mb as int),
        ;
    }
}

/// The selected result of a signed multiplication is the true product
/// whenever the true product fits.
proof fn lemma_signed_mul_result(a: &Integer, b: &Integer, r: &Integer, p: nat)
    requires
        a.wf(),
        b.wf(),
        r.wf(),
        a.signed,
        b.signed,
        r.signed,
        a.width() == b.width(),
        r.width() == a.width(),
        a.sval() * b.sval() == (if (a.bits_le@.last().value == b.bits_le@.last().value) {
            p as int
        } else {
            -(p as int)
        }),
        fits(a.sval() * b.sval(), a.width(), true) ==> r.uval() == (if (a.bits_le@.last().value
            == b.bits_le@.last().value) {
            (p % pow2(a.width())) as int
        } else {
            (0 - (p % pow2(a.width()))) % (pow2(a.width()) as int)
        }),
    ensures
        fits(a.sval() * b.sval(), a.width(), true) ==> r.ival() == a.sval() * b.sval(),
{
    lemma_halves(a.width());
    lemma_msb_value(bools_of(r.bits_le@));
    crate::binary::lemma_bits_val_bound(bools_of(r.bits_le@));
    vstd::arithmetic::power2::lemma_pow2_pos(a.width());
    if fits(a.sval() * b.sval(), a.width(), true) {
        let h = pow2((a.width() - 1) as nat) as int;
        let m = pow2(a.width()) as int;
        if a.bits_le@.last().value == b.bits_le@.last().value {
            // nonnegative product below the signed maximum
            vstd::arithmetic::div_mod::lemma_small_mod(p, pow2(a.width()));
        } else {
            // nonpositive product, at most the signed minimum in magnitude
            vstd::arithmetic::div_mod::lemma_small_mod(p, pow2(a.width()));
            if p == 0 {
                vstd::arithmetic::div_mod::lemma_small_mod(0nat, pow2(a.width()));
            } else {
                vstd::arithmetic::div_mod::lemma_mod_add_multiples_vanish(0 - p, m);
                vstd::arithmetic::div_mod::lemma_small_mod((m - p) as nat, pow2(a.width()));
            }
        }
    }
}

/// Two to the 193 is still below the field prime.
proof fn lemma_pow2_193_below()
    ensures
        pow2(193) < fp_m(),
{
    crate::binary::lemma_pow2_large();
    vstd::arithmetic::power2::lemma_pow2_adds(128, 64);
    vstd::arithmetic::power2::lemma_pow2_adds(192, 1);
    vstd::arithmetic::power2::lemma2_to64();
}

/// The product of two values split into high and low halves expands
/// into the four partial products.
proof fn lemma_half_product(a0: int, a1: int, b0: int, b1: int, pp: int)
    ensures
        (a0 + a1 * pp) * (b0 + b1 * pp) == a0 * b0 + (a0 * b1 + a1 * b0) * pp + (a1 * b1) * (pp
            * pp),
{
    assert((a0 + a1 * pp) * (b0 + b1 * pp) == a0 * (b0 + b1 * pp) + (a1 * pp) * (b0 + b1 * pp))
        by {
        vstd::arithmetic::mul::lemma_mul_is_distributive_add_other_way(b0 + b1 * pp, a0, a1 * pp);
    }
    assert(a0 * (b0 + b1 * pp) == a0 * b0 + a0 * (b1 * pp)) by {
        vstd::arithmetic::mul::lemma_mul_is_distributive_add(a0, b0, b1 * pp);
    }
    assert((a1 * pp) * (b0 + b1 * pp) == (a1 * pp) * b0 + (a1 * pp) * (b1 * pp)) by {
        vstd::arithmetic::mul::lemma_mul_is_distributive_add(a1 * pp, b0, b1 * pp);
    }
    assert(a0 * (b1 * pp) == (a0 * b1) * pp) by {
        vstd::arithmetic::mul::lemma_mul_is_associative(a0, b1, pp);
    }
    assert((a1 * pp) * b0 == (a1 * b0) * pp) by {
        vstd::arithmetic::mul::lemma_mul_is_associative(a1, pp, b0);
        vstd::arithmetic::mul::lemma_mul_is_commutative(pp, b0);
        vstd::arithmetic::mul::lemma_mul_is_associative(a1, b0, pp);
    }
    assert((a1 * pp) * (b1 * pp) == (a1 * b1) * (pp * pp)) by {
        vstd::arithmetic::mul::lemma_mul_is_associative(a1, pp, b1 * pp);
        vstd::arithmetic::mul::lemma_mul_is_associative(pp, b1, pp);
        vstd::arithmetic::mul::lemma_mul_is_commutative(pp, b1);
        vstd::arithmetic::mul::lemma_mul_is_associative(b1, pp, pp);
        vstd::arithmetic::mul::lemma_mul_is_associative(a1, b1, pp * pp);
    }
    assert((a0 * b1 + a1 * b0) * pp == (a0 * b1) * pp + (a1 * b0) * pp) by {
        vstd::arithmetic::mul::lemma_mul_is_distributive_add_other_way(pp, a0 * b1, a1 * b0);
    }
}

/// Splitting two 128-bit operands into 64-bit halves expands their
/// product into four partial products, with every part below the
/// modulus.
proof fn lemma_split_values(a: &Integer, b: &Integer, z0: nat, c1: nat, c2: nat, z2: nat)
    requires
        a.wf(),
        b.wf(),
        a.width() == 128,
        b.width() == 128,
        z0 == bits_val(bools_of(a.bits_le@).subrange(0, 64)) * bits_val(
            bools_of(b.bits_le@).subrange(0, 64),
        ) % fp_m(),
        c1 == bits_val(bools_of(a.bits_le@).subrange(0, 64)) * bits_val(
            bools_of(b.bits_le@).subrange(64, 128),
        ) % fp_m(),
        c2 == bits_val(bools_of(a.bits_le@).subrange(64, 128)) * bits_val(
            bools_of(b.bits_le@).subrange(0, 64),
        ) % fp_m(),
        z2 == bits_val(bools_of(a.bits_le@).subrange(64, 128)) * bits_val(
            bools_of(b.bits_le@).subrange(64, 128),
        ) % fp_m(),
    ensures
        a.uval() * b.uval() == z0 + (c1 + c2) * pow2(64) + z2 * pow2(128),
        z0 < pow2(128),
        c1 < pow2(128),
        c2 < pow2(128),
        c1 + c2 < pow2(129),
        z2 < pow2(128),
        z0 + (c1 + c2) * pow2(64) < pow2(194),
        a.uval() * b.uval() < pow2(256),
{
    let sa = bools_of(a.bits_le@);
    let sb = bools_of(b.bits_le@);
    let a0 = bits_val(sa.subrange(0, 64));
    let a1 = bits_val(sa.subrange(64, 128));
    let b0 = bits_val(sb.subrange(0, 64));
    let b1 = bits_val(sb.subrange(64, 128));
    assert(sa =~= sa.subrange(0, 64) + sa.subrange(64, 128));
    assert(sb =~= sb.subrange(0, 64) + sb.subrange(64, 128));
    crate::binary::lemma_bits_val_concat(sa.subrange(0, 64), sa.subrange(64, 128));
    crate::binary::lemma_bits_val_concat(sb.subrange(0, 64), sb.subrange(64, 128));
    crate::binary::lemma_bits_val_bound(sa.subrange(0, 64));
    crate::binary::lemma_bits_val_bound(sa.subrange(64, 128));
    crate::binary::lemma_bits_val_bound(sb.subrange(0, 64));
    crate::binary::lemma_bits_val_bound(sb.subrange(64, 128));
    crate::binary::lemma_bits_val_bound(sa);
    crate::binary::lemma_bits_val_bound(sb);
    vstd::arithmetic::power2::lemma_pow2_adds(64, 64);
    vstd::arithmetic::power2::lemma_pow2_adds(128, 128);
    vstd::arithmetic::power2::lemma2_to64();
    crate::binary::lemma_pow2_large();
    // every partial product stays below the modulus, so none reduces
    assert(a0 * b0 < pow2(64) * pow2(64)) by (nonlinear_arith)
        requires
            a0 < pow2(64) && b0 < pow2(64),
    ;
    assert(a0 * b1 < pow2(64) * pow2(64)) by (nonlinear_arith)
        requires
            a0 < pow2(64) && b1 < pow2(64),
    ;
    assert(a1 * b0 < pow2(64) * pow2(64)) by (nonlinear_arith)
        requires
            a1 < pow2(64) && b0 < pow2(64),
    ;
    assert(a1 * b1 < pow2(64) * pow2(64)) by (nonlinear_arith)
        requires
            a1 < pow2(64) && b1 < pow2(64),
    ;
    lemma_width_pow2_below_modulus(129);
    vstd::arithmetic::div_mod::lemma_small_mod((a0 * b0) as nat, fp_m());
    vstd::arithmetic::div_mod::lemma_small_mod((a0 * b1) as nat, fp_m());
    vstd::arithmetic::div_mod::lemma_small_mod((a1 * b0) as nat, fp_m());
    vstd::arithmetic::div_mod::lemma_small_mod((a1 * b1) as nat, fp_m());
    lemma_half_product(a0 as int, a1 as int, b0 as int, b1 as int, pow2(64) as int);
    assert(a.uval() == a0 + pow2(64) * a1);
    assert(b.uval() == b0 + pow2(64) * b1);
    assert(pow2(64) * a1 == a1 * pow2(64)) by (nonlinear_arith);
    assert(pow2(64) * b1 == b1 * pow2(64)) by (nonlinear_arith);
    // bound the partial sums
    assert(c1 < pow2(128) && c2 < pow2(128) && z2 < pow2(128) && z0 < pow2(128));
    vstd::arithmetic::power2::lemma_pow2_adds(1, 128);
    assert(a.uval() * b.uval() < pow2(256)) by (nonlinear_arith)
        requires
            a.uval() < pow2(128) && b.uval() < pow2(128) && pow2(256) == pow2(128) * pow2(128),
    ;
    assert((c1 + c2) * pow2(64) < pow2(129) * pow2(64)) by (nonlinear_arith)
        requires
            c1 + c2 < pow2(129) && pow2(64) > 0,
    ;
    vstd::arithmetic::power2::lemma_pow2_adds(129, 64);
    vstd::arithmetic::power2::lemma_pow2_adds(193, 1);
}

/// Assembling the low field element of the split product: with every
/// part below the modulus no reduction occurs, and the result is the
/// low partial product plus the shifted middle ones.
proof fn lemma_assemble_low(z0v: nat, c1v: nat, c2v: nat, sv: nat)
    requires
        z0v < pow2(128),
        c1v < pow2(128),
        c2v < pow2(128),
        sv == (z0v + (((c1v + c2v) % fp_m()) * 0x1_0000_0000_0000_0000nat) % fp_m()) % fp_m(),
    ensures
        sv == z0v + (c1v + c2v) * pow2(64),
        sv < pow2(194),
{
    let zmv = (c1v + c2v) % fp_m();
    let zsv = (zmv * 0x1_0000_0000_0000_0000nat) % fp_m();
    vstd::arithmetic::power2::lemma2_to64();
    vstd::arithmetic::power2::lemma_pow2_adds(1, 128);
    lemma_width_pow2_below_modulus(129);
    vstd::arithmetic::div_mod::lemma_small_mod((c1v + c2v) as nat, fp_m());
    lemma_pow2_193_below();
    assert(zmv * 0x1_0000_0000_0000_0000nat < pow2(193)) by {
        vstd::arithmetic::power2::lemma_pow2_adds(129, 64);
        vstd::arithmetic::power2::lemma2_to64();
        assert(zmv * pow2(64) < pow2(129) * pow2(64)) by (nonlinear_arith)
            requires
                zmv < pow2(129) && pow2(64) > 0,
        ;
    }
    vstd::arithmetic::power2::lemma2_to64();
    vstd::arithmetic::div_mod::lemma_small_mod((zmv * 0x1_0000_0000_0000_0000nat) as nat, fp_m());
    vstd::arithmetic::power2::lemma_pow2_adds(193, 1);
    lemma_pow2_194_below();
    vstd::arithmetic::power2::lemma_pow2_strictly_increases(194, 195);
    vstd::arithmetic::power2::lemma_pow2_strictly_increases(128, 193);
    assert(z0v + zsv < pow2(194));
    vstd::arithmetic::div_mod::lemma_small_mod((z0v + zsv) as nat, fp_m());
}

/// The split product's two field values recombine into the full
/// product: the low element carries the low and middle partial
/// products, the high element the high one.
proof fn lemma_split_combined(a: &Integer, b: &Integer, sv: nat, z2v: nat)
    requires
        a.wf(),
        b.wf(),
        a.width() == 128,
        b.width() == 128,
        z2v == bits_val(bools_of(a.bits_le@).subrange(64, 128)) * bits_val(
            bools_of(b.bits_le@).subrange(64, 128),
        ) % fp_m(),
        sv == ((bits_val(bools_of(a.bits_le@).subrange(0, 64)) * bits_val(
            bools_of(b.bits_le@).subrange(0, 64),
        ) % fp_m()) + (((bits_val(bools_of(a.bits_le@).subrange(0, 64)) * bits_val(
            bools_of(b.bits_le@).subrange(64, 128),
        ) % fp_m()) + (bits_val(bools_of(a.bits_le@).subrange(64, 128)) * bits_val(
            bools_of(b.bits_le@).subrange(0, 64),
        ) % fp_m())) % fp_m()) * 0x1_0000_0000_0000_0000nat % fp_m()) % fp_m(),
    ensures
        a.uval() * b.uval() == sv + z2v * pow2(128),
        sv < pow2(194),
        z2v < pow2(128),
        a.uval() * b.uval() < pow2(256),
{
    let z0v = bits_val(bools_of(a.bits_le@).subrange(0, 64)) * bits_val(
        bools_of(b.bits_le@).subrange(0, 64),
    ) % fp_m();
    let c1v = bits_val(bools_of(a.bits_le@).subrange(0, 64)) * bits_val(
        bools_of(b.bits_le@).subrange(64, 128),
    ) % fp_m();
    let c2v = bits_val(bools_of(a.bits_le@).subrange(64, 128)) * bits_val(
        bools_of(b.bits_le@).subrange(0, 64),
    ) % fp_m();
    lemma_split_values(a, b, z0v, c1v, c2v, z2v);
    lemma_assemble_low(z0v, c1v, c2v, sv);
}

/// When not both operands are constant, one of them has no constant
/// bit at all: the bits of an integer share one visibility.
proof fn lemma_operand_bits_nonconstant(a: &Integer, b: &Integer)
    requires
        a.wf(),
        b.wf(),
        !(a.is_constant_spec() && b.is_constant_spec()),
    ensures
        (forall|t: int| 0 <= t < a.bits_le@.len() ==> !(#[trigger] a.bits_le@[t]).is_constant_spec())
            || (forall|t: int|
            0 <= t < b.bits_le@.len() ==> !(#[trigger] b.bits_le@[t]).is_constant_spec()),
{
}

/// Recombining the low part and the carry of the split product.
proof fn lemma_carry_assembly(p: int, s: int, z2: int, low: int, sh: int)
    requires
        p == s + z2 * pow2(128),
        low == s % (pow2(128) as int),
        sh == s / (pow2(128) as int),
        p >= 0,
        z2 >= 0,
        p < pow2(256),
    ensures
        low == p % (pow2(128) as int),
        sh + z2 == p / (pow2(128) as int),
        sh + z2 < pow2(128),
{
    let m = pow2(128) as int;
    vstd::arithmetic::power2::lemma_pow2_pos(128);
    vstd::arithmetic::div_mod::lemma_fundamental_div_mod(s, m);
    assert(p == (sh + z2) * m + low) by (nonlinear_arith)
        requires
            p == s + z2 * m && s == m * sh + low,
    ;
    vstd::arithmetic::div_mod::lemma_fundamental_div_mod_converse(p, m, sh + z2, low);
    vstd::arithmetic::power2::lemma_pow2_adds(128, 128);
    assert((sh + z2) * m <= p) by (nonlinear_arith)
        requires
            p == (sh + z2) * m + low && low >= 0,
    ;
    assert((sh + z2) * m < pow2(128) * m ==> sh + z2 < pow2(128)) by (nonlinear_arith)
        requires
            m > 0,
    ;
}

/// A quotient is nonzero exactly when the dividend reaches the divisor.
proof fn lemma_div_nonzero_iff(x: int, d: int)
    requires
        x >= 0,
        d > 0,
    ensures
        x / d != 0 <==> x >= d,
{
    if x >= d {
        vstd::arithmetic::div_mod::lemma_div_non_zero(x, d);
    } else {
        vstd::arithmetic::div_mod::lemma_basic_div(x, d);
    }
}

/// Two to the 195 is still below the field prime.
proof fn lemma_pow2_194_below()
    ensures
        pow2(195) < fp_m(),
{
    crate::binary::lemma_pow2_large();
    vstd::arithmetic::power2::lemma_pow2_adds(128, 64);
    vstd::arithmetic::power2::lemma_pow2_adds(192, 3);
    vstd::arithmetic::power2::lemma2_to64();
}

/// The difference wrapped to the width, as a machine word.
fn wrapped_diff(ua: u128, ub: u128, w: usize) -> (r: u128)
    requires
        valid_width(w as nat),
        ua < pow2(w as nat),
        ub < pow2(w as nat),
    ensures
        r == (ua - ub) % (pow2(w as nat) as int),
{
    proof {
        vstd::arithmetic::power2::lemma_pow2_pos(w as nat);
        crate::binary::lemma_pow2_large();
    }
    if ua >= ub {
        proof {
            vstd::arithmetic::div_mod::lemma_small_mod((ua - ub) as nat, pow2(w as nat));
        }
        ua - ub
    } else if w == 128 {
        proof {
            vstd::arithmetic::div_mod::lemma_mod_add_multiples_vanish(
                ua - ub,
                pow2(w as nat) as int,
            );
            vstd::arithmetic::div_mod::lemma_small_mod((ua - ub + pow2(128)) as nat, pow2(128));
        }
        (u128::MAX - (ub - ua)) + 1
    } else {
        proof {
            vstd::arithmetic::div_mod::lemma_mod_add_multiples_vanish(
                ua - ub,
                pow2(w as nat) as int,
            );
            vstd::arithmetic::div_mod::lemma_small_mod(
                (ua - ub + pow2(w as nat)) as nat,
                pow2(w as nat),
            );
        }
        (crate::binary::pow2_u128(w) - ub) + ua
    }
}

/// The integer formed from the low `w` bits of a decomposition.
fn low_bits_integer(bits: &Vec<Boolean>, w: usize, signed: bool) -> (r: Integer)
    requires
        valid_width(w as nat),
        w < bits@.len(),
        bools_wf(bits@),
        forall|i: int| 0 <= i < bits@.len() ==> !(#[trigger] bits@[i]).is_constant_spec(),
    ensures
        r.wf(),
        r.width() == w,
        r.signed == signed,
        r.uval() == bits_val(bools_of(bits@).take(w as int)),
        !r.is_constant_spec(),
{
    let mut low: Vec<Boolean> = Vec::new();
    let mut i: usize = 0;
    while i < w
        invariant
            i <= w,
            w < bits@.len(),
            bools_wf(bits@),
            forall|t: int| 0 <= t < bits@.len() ==> !(#[trigger] bits@[t]).is_constant_spec(),
            low@.len() == i,
            bools_wf(low@),
            bools_of(low@) == bools_of(bits@).take(i as int),
            forall|t: int| 0 <= t < i ==> !(#[trigger] low@[t]).is_constant_spec(),
        decreases w - i,
    {
        proof {
            assert(bits@[i as int].wf());
        }
        low.push(bits[i].duplicate());
        proof {
            assert(bools_of(low@) =~= bools_of(bits@).take(i + 1));
        }
        i = i + 1;
    }
    let r = Integer { bits_le: low, signed };
    proof {
        assert(!r.bits_le@[0].is_constant_spec());
    }
    r
}

/// A value in range wraps to itself.
proof fn lemma_wrap_exact(v: int, w: nat, signed: bool)
    requires
        valid_width(w),
        fits(v, w, signed),
    ensures
        wrap_val(v, w, signed) == v,
{
    let m = pow2(w) as int;
    lemma_halves(w);
    if v >= 0 {
        vstd::arithmetic::div_mod::lemma_small_mod(v as nat, pow2(w));
    } else {
        vstd::arithmetic::div_mod::lemma_mod_add_multiples_vanish(v, m);
        vstd::arithmetic::div_mod::lemma_small_mod((v + m) as nat, pow2(w));
    }
}

/// When the true difference fits, the wrapped difference equals it.
proof fn lemma_wrap_exact_cond(a: &Integer, b: &Integer, r: &Integer)
    requires
        a.wf(),
        b.wf(),
        r.wf(),
        a.width() == b.width(),
        a.width() == r.width(),
        a.signed == b.signed,
        a.signed == r.signed,
        r.ival() == wrap_val(a.ival() - b.ival(), a.width(), a.signed),
    ensures
        fits(a.ival() - b.ival(), a.width(), a.signed) ==> r.ival() == a.ival() - b.ival(),
{
    if fits(a.ival() - b.ival(), a.width(), a.signed) {
        lemma_wrap_exact(a.ival() - b.ival(), a.width(), a.signed);
    }
}

/// The two's-complement sign analysis of a subtraction: the signs differ
/// and the wrapped difference carries the subtrahend's sign exactly when
/// the true signed difference leaves the representable range.
proof fn lemma_signed_sub_overflow(au: nat, bu: nat, w: nat)
    requires
        valid_width(w),
        au < pow2(w),
        bu < pow2(w),
    ensures
        ({
            let h = pow2((w - 1) as nat) as int;
            let m = pow2(w) as int;
            let sa = if au >= h {
                au - m
            } else {
                au as int
            };
            let sb = if bu >= h {
                bu - m
            } else {
                bu as int
            };
            let du = (au - bu) % m;
            ((au >= h) != (bu >= h) && ((du >= h) == (bu >= h))) <==> !(-h <= sa - sb < h)
        }),
{
    let h = pow2((w - 1) as nat) as int;
    let m = pow2(w) as int;
    lemma_halves(w);
    if au >= bu {
        vstd::arithmetic::div_mod::lemma_small_mod((au - bu) as nat, pow2(w));
    } else {
        vstd::arithmetic::div_mod::lemma_mod_add_multiples_vanish(au - bu, m);
        vstd::arithmetic::div_mod::lemma_small_mod((au - bu + m) as nat, pow2(w));
    }
}

/// If a difference's bits hold the wrapped unsigned difference, its
/// native value is the wrapped native difference.
proof fn lemma_wrap_relates(a: &Integer, b: &Integer, r: &Integer)
    requires
        a.wf(),
        b.wf(),
        r.wf(),
        a.width() == b.width(),
        a.width() == r.width(),
        a.signed == b.signed,
        a.signed == r.signed,
        r.uval() == (a.uval() - b.uval()) % (pow2(a.width()) as int),
    ensures
        r.ival() == wrap_val(a.ival() - b.ival(), a.width(), a.signed),
{
    let w = a.width();
    let m = pow2(w) as int;
    lemma_halves(w);
    lemma_msb_value(bools_of(a.bits_le@));
    lemma_msb_value(bools_of(b.bits_le@));
    lemma_msb_value(bools_of(r.bits_le@));
    crate::binary::lemma_bits_val_bound(bools_of(r.bits_le@));
    if a.signed {
        // the signed difference is congruent to the unsigned difference
        let d_s = a.sval() - b.sval();
        let d_u = a.uval() - b.uval();
        assert(d_s % m == d_u % m) by {
            vstd::arithmetic::power2::lemma_pow2_pos(w);
            if a.bits_le@.last().value == b.bits_le@.last().value {
                assert(d_s == d_u);
            } else if a.bits_le@.last().value {
                assert(d_s == -m + d_u);
                vstd::arithmetic::div_mod::lemma_mod_sub_multiples_vanish(d_u, m);
            } else {
                assert(d_s == m + d_u);
                vstd::arithmetic::div_mod::lemma_mod_add_multiples_vanish(d_u, m);
            }
        }
        assert(r.uval() == d_s % m);
    }
}
pub proof fn lemma_halves(w: nat)
    requires
        valid_width(w),
    ensures
        pow2(w) == 2 * pow2((w - 1) as nat),
        pow2(w) == pow2((w / 2) as nat) * pow2((w / 2) as nat),
        pow2((w - 1) as nat) >= 1,
        pow2(w) > 1,
{
    vstd::arithmetic::power2::lemma_pow2_adds(1, (w - 1) as nat);
    vstd::arithmetic::power2::lemma_pow2_adds((w / 2) as nat, (w / 2) as nat);
    vstd::arithmetic::power2::lemma_pow2_pos((w - 1) as nat);
    vstd::arithmetic::power2::lemma2_to64();
    vstd::arithmetic::power2::lemma_pow2_strictly_increases(0, w);
}

/// Two integers of one width agree in native value exactly when they
/// agree bit for bit in unsigned value.
proof fn lemma_ival_injective(a: &Integer, b: &Integer)
    requires
        a.wf(),
        b.wf(),
        a.width() == b.width(),
        a.signed == b.signed,
    ensures
        (a.ival() == b.ival()) <==> (a.uval() == b.uval()),
{
    lemma_msb_value(bools_of(a.bits_le@));
    lemma_msb_value(bools_of(b.bits_le@));
    crate::binary::lemma_bits_val_bound(bools_of(a.bits_le@));
    crate::binary::lemma_bits_val_bound(bools_of(b.bits_le@));
    assert(bools_of(a.bits_le@).last() == a.bits_le@.last().value);
    assert(bools_of(b.bits_le@).last() == b.bits_le@.last().value);
    lemma_halves(a.width());
    if a.signed {
        if a.bits_le@.last().value != b.bits_le@.last().value {
            assert(a.uval() != b.uval());
            assert(a.sval() != b.sval());
        }
    }
}

/// Two to any supported width, and one beyond it, stays below the field
/// prime.
pub proof fn lemma_width_pow2_below_modulus(w: nat)
    requires
        w <= 129,
    ensures
        pow2(w) < fp_m(),
{
    vstd::arithmetic::power2::lemma_pow2_adds(64, 64);
    vstd::arithmetic::power2::lemma_pow2_adds(128, 1);
    vstd::arithmetic::power2::lemma2_to64();
    assert(pow2(129) < fp_m());
    if w < 129 {
        vstd::arithmetic::power2::lemma_pow2_strictly_increases(w, 129);
    }
}

/// Flipping every bit complements the value against the all-ones word.
proof fn lemma_bits_val_flip(s1: Seq<bool>, s2: Seq<bool>)
    requires
        s1.len() == s2.len(),
        forall|i: int| 0 <= i < s1.len() ==> s2[i] == !s1[i],
    ensures
        bits_val(s2) == pow2(s1.len()) - 1 - bits_val(s1),
    decreases s1.len(),
{
    if s1.len() == 0 {
        vstd::arithmetic::power2::lemma2_to64();
    } else {
        let t1 = s1.subrange(1, s1.len() as int);
        let t2 = s2.subrange(1, s2.len() as int);
        assert(forall|i: int| 0 <= i < t1.len() ==> t2[i] == !t1[i]);
        lemma_bits_val_flip(t1, t2);
        assert(pow2(s1.len()) == 2 * pow2(t1.len())) by {
            vstd::arithmetic::power2::lemma_pow2_adds(1, t1.len());
            vstd::arithmetic::power2::lemma2_to64();
        }
        vstd::arithmetic::power2::lemma_pow2_pos(t1.len());
    }
}

/// The most significant bit of a word is set exactly when the value
/// reaches half the word's range.
pub proof fn lemma_msb_value(s: Seq<bool>)
    requires
        s.len() > 0,
    ensures
        s.last() <==> bits_val(s) >= pow2((s.len() - 1) as nat),
        bits_val(s) == bits_val(s.take(s.len() - 1)) + bit(s.last()) * pow2(
            (s.len() - 1) as nat,
        ),
        bits_val(s.take(s.len() - 1)) < pow2((s.len() - 1) as nat),
{
    let n = s.len() as int;
    assert(s =~= s.take(n - 1).push(s.last()));
    crate::binary::lemma_bits_val_push(s.take(n - 1), s.last());
    crate::binary::lemma_bits_val_bound(s.take(n - 1));
}

/// The value of a bit sequence is zero exactly when every bit is clear.
pub proof fn lemma_bits_val_zero_iff(s: Seq<bool>)
    ensures
        bits_val(s) == 0 <==> (forall|i: int| 0 <= i < s.len() ==> !(#[trigger] s[i])),
    decreases s.len(),
{
    if s.len() > 0 {
        let t = s.subrange(1, s.len() as int);
        lemma_bits_val_zero_iff(t);
        assert(forall|i: int| 0 <= i < t.len() ==> t[i] == s[i + 1]);
        if bits_val(s) == 0 {
            assert forall|i: int| 0 <= i < s.len() implies !(#[trigger] s[i]) by {
                if i >= 1 {
                    assert(!t[i - 1]);
                }
            }
        }
    }
}

} // verus!
