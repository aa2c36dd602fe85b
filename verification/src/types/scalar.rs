//! The scalar circuit gadget: an element of the scalar field of the
//! embedded curve, carried as its 251 little-endian bits.

use vstd::prelude::*;

use crate::environment::Environment;
use crate::mode::Mode;
use crate::types::boolean::{bools_of, bools_wf, Boolean};

verus! {

/// The bit size of the embedded curve's scalar field.
pub open spec fn scalar_size_in_bits() -> nat {
    251
}

/// A scalar in the circuit, as its little-endian bits.
#[derive(Debug)]
pub struct Scalar {
    /// The bits, least significant first.
    pub bits_le: Vec<Boolean>,
}

impl Scalar {
    /// Exactly the scalar field's bit count, all bits well formed.
    pub open spec fn wf(&self) -> bool {
        bools_wf(self.bits_le@) && self.bits_le@.len() == scalar_size_in_bits()
    }

    /// Allocates a scalar of the given mode from its bit values; one
    /// allocation per bit, plus one range gate per bit for non-constant
    /// modes.
    pub fn new(env: &mut Environment, mode: Mode, bits: &Vec<bool>) -> (r: Scalar)
        requires
            old(env).wf(),
            bits@.len() == scalar_size_in_bits(),
        ensures
            r.wf(),
            bools_of(r.bits_le@) == bits@,
            final (env).wf(),
            final (env).halted == old(env).halted,
            final (env).scopes@ == old(env).scopes@,
            final (env).vars@.len() == old(env).vars@.len() + scalar_size_in_bits(),
            final (env).all_gates_hold() <==> old(env).all_gates_hold(),
    {
        let mut gadget_bits: Vec<Boolean> = Vec::new();
        let n = bits.len();
        let mut i: usize = 0;
        let ghost env0 = *env;
        proof {
            assert(bools_of(gadget_bits@) =~= bits@.take(0));
        }
        while i < n
            invariant
                i <= n,
                n == bits@.len(),
                env.wf(),
                env.halted == env0.halted,
                env.scopes@ == env0.scopes@,
                env.vars@.len() == env0.vars@.len() + i,
                env.all_gates_hold() <==> env0.all_gates_hold(),
                gadget_bits@.len() == i,
                bools_wf(gadget_bits@),
                bools_of(gadget_bits@) == bits@.take(i as int),
            decreases n - i,
        {
            let b = Boolean::new(env, mode, bits[i]);
            gadget_bits.push(b);
            proof {
                assert(bools_of(gadget_bits@) =~= bits@.take(i + 1));
            }
            i = i + 1;
        }
        proof {
            assert(bits@.take(n as int) =~= bits@);
        }
        Scalar { bits_le: gadget_bits }
    }

    /// The little-endian bit representation, trailing zeros kept.
    pub fn to_bits_le(&self) -> (r: Vec<Boolean>)
        requires
            self.wf(),
        ensures
            bools_of(r@) == bools_of(self.bits_le@),
            bools_wf(r@),
            r@.len() == scalar_size_in_bits(),
    {
        let mut out: Vec<Boolean> = Vec::new();
        let n = self.bits_le.len();
        let mut i: usize = 0;
        while i < n
            invariant
                i <= n,
                n == self.bits_le@.len(),
                self.wf(),
                out@.len() == i,
                bools_wf(out@),
                bools_of(out@) == bools_of(self.bits_le@).take(i as int),
            decreases n - i,
        {
            proof {
                assert(self.bits_le@[i as int].wf());
            }
            out.push(self.bits_le[i].duplicate());
            proof {
                assert(bools_of(out@) =~= bools_of(self.bits_le@).take(i + 1));
            }
            i = i + 1;
        }
        proof {
            assert(bools_of(self.bits_le@).take(n as int) =~= bools_of(self.bits_le@));
        }
        out
    }

    /// The big-endian bit representation: the little-endian bits,
    /// reversed, leading zeros kept.
    pub fn to_bits_be(&self) -> (r: Vec<Boolean>)
        requires
            self.wf(),
        ensures
            bools_of(r@) == bools_of(self.bits_le@).reverse(),
            bools_wf(r@),
            r@.len() == scalar_size_in_bits(),
    {
        let n = self.bits_le.len();
        let mut out: Vec<Boolean> = Vec::new();
        let mut i: usize = 0;
        while i < n
            invariant
                i <= n,
                n == self.bits_le@.len(),
                self.wf(),
                out@.len() == i,
                bools_wf(out@),
                forall|t: int|
                    0 <= t < i ==> (#[trigger] out@[t]).value == self.bits_le@[n - 1 - t].value,
            decreases n - i,
        {
            proof {
                assert(self.bits_le@[n - 1 - i as int].wf());
            }
            out.push(self.bits_le[n - 1 - i].duplicate());
            i = i + 1;
        }
        proof {
            assert(bools_of(out@) =~= bools_of(self.bits_le@).reverse());
        }
        out
    }
}

} // verus!
