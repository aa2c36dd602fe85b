//! The group-element circuit gadget: a point of the embedded twisted
//! Edwards curve, carried as its two coordinate field elements.
//!
//! The curve's add and double gadgets belong to the group law, which
//! this crate consumes as an external collaborator; what lives here is
//! the coordinate representation and the componentwise selection used
//! by scalar-multiplication loops.

use vstd::prelude::*;

use crate::environment::Environment;
use crate::types::boolean::Boolean;
use crate::types::field::Field;

verus! {

/// A curve point in the circuit, in affine coordinates.
#[derive(Debug)]
pub struct Group {
    /// The x coordinate.
    pub x: Field,
    /// The y coordinate.
    pub y: Field,
}

impl Group {
    /// Both coordinates are well formed.
    pub open spec fn wf(&self) -> bool {
        self.x.wf() && self.y.wf()
    }

    /// Whether both coordinates are constants of the circuit.
    pub open spec fn is_constant_spec(&self) -> bool {
        self.x.is_constant_spec() && self.y.is_constant_spec()
    }

    /// Returns `first` if `condition` is true, otherwise `second`,
    /// selecting each coordinate independently. A constant condition is
    /// resolved natively at no cost; otherwise one witness and one gate
    /// per coordinate are emitted.
    pub fn ternary(env: &mut Environment, condition: &Boolean, first: &Group, second: &Group)
        -> (r: Group)
        requires
            condition.wf(),
            first.wf(),
            second.wf(),
            old(env).wf(),
        ensures
            r.wf(),
            r.x.value == (if condition.value {
                first.x.value
            } else {
                second.x.value
            }),
            r.y.value == (if condition.value {
                first.y.value
            } else {
                second.y.value
            }),
            final (env).wf(),
            final (env).halted == old(env).halted,
            final (env).scopes@ == old(env).scopes@,
            condition.is_constant_spec() ==> final (env).vars@ == old(env).vars@
                && final (env).constraints@ == old(env).constraints@,
            !condition.is_constant_spec() ==> {
                &&& final (env).vars@ == old(env).vars@.push(crate::mode::Mode::Private).push(
                    crate::mode::Mode::Private,
                )
                &&& final (env).constraints@.len() == old(env).constraints@.len() + 2
                &&& (final (env).all_gates_hold() <==> old(env).all_gates_hold())
            },
    {
        let x = Field::ternary(env, condition, &first.x, &second.x);
        let y = Field::ternary(env, condition, &first.y, &second.y);
        Group { x, y }
    }
}

} // verus!
