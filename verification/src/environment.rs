//! The constraint-accumulating environment for one circuit-synthesis
//! session.
//!
//! The environment records every allocated variable's mode, every
//! multiplication gate `A * B = C` over linear combinations, and a scope
//! stack used purely for cost attribution. A fatal precondition failure
//! (`halt`) poisons the environment: the halted flag is sticky, the session
//! is invalid, and only `reset` returns the environment to service.

use vstd::prelude::*;

use crate::fp::{fp_m, fp_add, fp_mul, fp_sub, Fp};
use crate::mode::Mode;

verus! {

/// A variable allocated in the environment, carrying its visibility mode
/// and its value under the current witness assignment.
#[derive(Clone, Copy, Debug)]
pub struct Variable {
    /// The visibility mode the variable was allocated with.
    pub mode: Mode,
    /// The value assigned to the variable.
    pub value: Fp,
}

impl Variable {
    /// The value is canonical.
    pub open spec fn wf(&self) -> bool {
        self.value.wf()
    }
}

/// The exact integer value of a list of weighted terms: the sum of
/// `coefficient * variable value` with no modular reduction.
pub open spec fn terms_val(s: Seq<(Fp, Variable)>) -> int
    decreases s.len(),
{
    if s.len() == 0 {
        0
    } else {
        s[0].0@ * s[0].1.value@ + terms_val(s.subrange(1, s.len() as int))
    }
}

/// Every coefficient and variable value in the term list is canonical.
pub open spec fn terms_wf(s: Seq<(Fp, Variable)>) -> bool {
    forall|i: int|
        0 <= i < s.len() ==> (#[trigger] s[i]).0.wf() && s[i].1.wf()
}

/// A weighted sum of variables plus a constant term: the operand form for
/// constraint gates.
#[derive(Clone, Debug)]
pub struct LinearCombination {
    /// The constant term.
    pub constant: Fp,
    /// The weighted variables.
    pub terms: Vec<(Fp, Variable)>,
}

/// The value of a linear combination under the current assignment,
/// reduced modulo the field prime.
pub open spec fn lc_val(lc: LinearCombination) -> int {
    (lc.constant@ + terms_val(lc.terms@)) % (fp_m() as int)
}

/// Appending a term adds its exact value.
pub proof fn lemma_terms_val_push(s: Seq<(Fp, Variable)>, t: (Fp, Variable))
    ensures
        terms_val(s.push(t)) == terms_val(s) + t.0@ * t.1.value@,
    decreases s.len(),
{
    if s.len() == 0 {
        assert(s.push(t).subrange(1, 1) =~= Seq::<(Fp, Variable)>::empty());
        assert(terms_val(Seq::<(Fp, Variable)>::empty()) == 0);
        assert(terms_val(s.push(t)) == t.0@ * t.1.value@ + terms_val(
            Seq::<(Fp, Variable)>::empty(),
        ));
    } else {
        let r = s.subrange(1, s.len() as int);
        assert(s.push(t).subrange(1, (s.len() + 1) as int) =~= r.push(t));
        assert(terms_val(s.push(t)) == s[0].0@ * s[0].1.value@ + terms_val(r.push(t)));
        assert(terms_val(s) == s[0].0@ * s[0].1.value@ + terms_val(r));
        lemma_terms_val_push(r, t);
    }
}

/// Concatenating term lists adds their exact values.
pub proof fn lemma_terms_val_concat(s1: Seq<(Fp, Variable)>, s2: Seq<(Fp, Variable)>)
    ensures
        terms_val(s1 + s2) == terms_val(s1) + terms_val(s2),
    decreases s2.len(),
{
    if s2.len() == 0 {
        assert(s1 + s2 =~= s1);
    } else {
        let front = s2.drop_last();
        lemma_terms_val_concat(s1, front);
        assert(s1 + s2 =~= (s1 + front).push(s2.last()));
        assert(s2 =~= front.push(s2.last()));
        lemma_terms_val_push(s1 + front, s2.last());
        lemma_terms_val_push(front, s2.last());
    }
}

/// Taking one more term adds its exact value.
pub proof fn lemma_terms_val_take_step(s: Seq<(Fp, Variable)>, j: int)
    requires
        0 <= j < s.len(),
    ensures
        terms_val(s.take(j + 1)) == terms_val(s.take(j)) + s[j].0@ * s[j].1.value@,
{
    assert(s.take(j + 1) =~= s.take(j).push(s[j]));
    lemma_terms_val_push(s.take(j), s[j]);
}

/// Congruent factors give congruent products.
proof fn lemma_cmul(a: int, b: int, t: int, m: int)
    requires
        m > 0,
        a % m == b % m,
    ensures
        (a * t) % m == (b * t) % m,
{
    vstd::arithmetic::div_mod::lemma_mul_mod_noop_left(a, t, m);
    vstd::arithmetic::div_mod::lemma_mul_mod_noop_left(b, t, m);
}

/// Congruent addends give congruent sums.
proof fn lemma_cadd(a: int, b: int, c: int, d: int, m: int)
    requires
        m > 0,
        a % m == b % m,
        c % m == d % m,
    ensures
        (a + c) % m == (b + d) % m,
{
    vstd::arithmetic::div_mod::lemma_add_mod_noop(a, c, m);
    vstd::arithmetic::div_mod::lemma_add_mod_noop(b, d, m);
}

/// Scaling every term of a list scales its value, modulo the prime.
proof fn lemma_terms_val_scaled(s1: Seq<(Fp, Variable)>, s2: Seq<(Fp, Variable)>, k: nat)
    requires
        s1.len() == s2.len(),
        terms_wf(s1),
        forall|i: int|
            0 <= i < s1.len() ==> (#[trigger] s2[i]).1 == s1[i].1 && s2[i].0@ == ((k
                * s1[i].0@) as int) % (fp_m() as int),
    ensures
        terms_val(s2) % (fp_m() as int) == (k * terms_val(s1)) % (fp_m() as int),
    decreases s1.len(),
{
    let md = fp_m() as int;
    if s1.len() == 0 {
        assert(k * 0 == 0) by (nonlinear_arith);
    } else {
        let r1 = s1.subrange(1, s1.len() as int);
        let r2 = s2.subrange(1, s2.len() as int);
        assert(forall|i: int|
            0 <= i < r1.len() ==> (#[trigger] r2[i]).1 == r1[i].1 && r2[i].0@ == ((k
                * r1[i].0@) as int) % md);
        lemma_terms_val_scaled(r1, r2, k);
        let c = s1[0].0@;
        let v = s1[0].1.value@;
        // the scaled head term is congruent to k * (c * v)
        lemma_cmul(((k * c) as int) % md, (k * c) as int, v as int, md);
        assert(k as int * c * v == k as int * (c as int * v)) by (nonlinear_arith);
        lemma_cadd(
            (s2[0].0@ * v) as int,
            k as int * (c as int * v),
            terms_val(r2),
            k as int * terms_val(r1),
            md,
        );
        assert(k as int * (c as int * v) + k as int * terms_val(r1) == k as int * (c as int * v
            + terms_val(r1))) by (nonlinear_arith);
    }
}

impl LinearCombination {
    /// Constant and all terms are canonical.
    pub open spec fn wf(&self) -> bool {
        self.constant.wf() && terms_wf(self.terms@)
    }

    /// A linear combination with no variables is a constant.
    pub open spec fn is_constant_spec(&self) -> bool {
        self.terms@.len() == 0
    }

    /// Whether the combination has no variable terms.
    pub fn is_constant(&self) -> (r: bool)
        ensures
            r <==> self.is_constant_spec(),
    {
        self.terms.len() == 0
    }

    /// The combination holding only the constant `c`.
    pub fn from_constant(c: Fp) -> (r: LinearCombination)
        requires
            c.wf(),
        ensures
            r.wf(),
            r.is_constant_spec(),
            lc_val(r) == c@,
    {
        let r = LinearCombination { constant: c, terms: Vec::new() };
        proof {
            vstd::arithmetic::div_mod::lemma_small_mod(c@, fp_m());
        }
        r
    }

    /// The combination holding the single variable `v` with weight one.
    pub fn from_variable(v: Variable) -> (r: LinearCombination)
        requires
            v.wf(),
        ensures
            r.wf(),
            !r.is_constant_spec(),
            r.terms@.len() == 1,
            lc_val(r) == v.value@,
    {
        let mut terms: Vec<(Fp, Variable)> = Vec::new();
        terms.push((Fp::one(), v));
        let r = LinearCombination { constant: Fp::zero(), terms };
        proof {
            assert(r.terms@.subrange(1, 1) =~= Seq::<(Fp, Variable)>::empty());
            assert(terms_val(Seq::<(Fp, Variable)>::empty()) == 0);
            assert(terms_val(r.terms@) == 1 * v.value@ + 0);
            assert(1 * v.value@ == v.value@) by (nonlinear_arith);
            vstd::arithmetic::div_mod::lemma_small_mod(v.value@, fp_m());
        }
        r
    }

    /// The sum of two linear combinations; no gate is emitted.
    pub fn add(&self, other: &LinearCombination) -> (r: LinearCombination)
        requires
            self.wf(),
            other.wf(),
        ensures
            r.wf(),
            r.terms@ == self.terms@ + other.terms@,
            lc_val(r) == (lc_val(*self) + lc_val(*other)) % (fp_m() as int),
    {
        let ghost md = fp_m() as int;
        let constant = fp_add(&self.constant, &other.constant);
        let mut terms: Vec<(Fp, Variable)> = Vec::new();
        let n1 = self.terms.len();
        let mut i: usize = 0;
        while i < n1
            invariant
                i <= n1,
                n1 == self.terms@.len(),
                terms@ == self.terms@.take(i as int),
            decreases n1 - i,
        {
            let (c, v) = self.terms[i];
            terms.push((c, v));
            proof {
                assert(terms@ =~= self.terms@.take(i + 1));
            }
            i = i + 1;
        }
        let n2 = other.terms.len();
        let mut j: usize = 0;
        proof {
            assert(self.terms@.take(n1 as int) =~= self.terms@);
            assert(terms@ =~= self.terms@ + other.terms@.take(0));
        }
        while j < n2
            invariant
                j <= n2,
                n2 == other.terms@.len(),
                terms@ == self.terms@ + other.terms@.take(j as int),
            decreases n2 - j,
        {
            let (c, v) = other.terms[j];
            terms.push((c, v));
            proof {
                assert(terms@ =~= self.terms@ + other.terms@.take(j + 1));
            }
            j = j + 1;
        }
        proof {
            assert(other.terms@.take(n2 as int) =~= other.terms@);
        }
        let r = LinearCombination { constant, terms };
        proof {
            lemma_terms_val_concat(self.terms@, other.terms@);
            let c1 = self.constant@ as int;
            let c2 = other.constant@ as int;
            let t1 = terms_val(self.terms@);
            let t2 = terms_val(other.terms@);
            // the reduced constant folds back into the total
            lemma_cadd(((c1 + c2) % md) as int, c1 + c2, t1 + t2, t1 + t2, md);
            vstd::arithmetic::div_mod::lemma_mod_twice(constant@ + (t1 + t2), md);
            // and the sum of the reduced values is congruent to the total
            lemma_cadd(lc_val(*self), c1 + t1, lc_val(*other), c2 + t2, md);
            vstd::arithmetic::div_mod::lemma_mod_twice(lc_val(*self) + lc_val(*other), md);
        }
        r
    }

    /// The combination scaled by the field element `k`; no gate is
    /// emitted.
    pub fn scale(&self, k: &Fp) -> (r: LinearCombination)
        requires
            self.wf(),
            k.wf(),
        ensures
            r.wf(),
            r.terms@.len() == self.terms@.len(),
            r.is_constant_spec() == self.is_constant_spec(),
            lc_val(r) == (k@ * lc_val(*self)) % (fp_m() as int),
    {
        let ghost md = fp_m() as int;
        let constant = fp_mul(k, &self.constant);
        let mut terms: Vec<(Fp, Variable)> = Vec::new();
        let n = self.terms.len();
        let mut i: usize = 0;
        while i < n
            invariant
                i <= n,
                n == self.terms@.len(),
                k.wf(),
                self.wf(),
                terms@.len() == i,
                terms_wf(terms@),
                forall|t: int|
                    0 <= t < i ==> (#[trigger] terms@[t]).1 == self.terms@[t].1 && terms@[t].0@
                        == ((k@ * self.terms@[t].0@) as int) % (fp_m() as int),
            decreases n - i,
        {
            let (c, v) = self.terms[i];
            let scaled = fp_mul(k, &c);
            terms.push((scaled, v));
            i = i + 1;
        }
        let r = LinearCombination { constant, terms };
        proof {
            lemma_terms_val_scaled(self.terms@, r.terms@, k@);
            let c1 = self.constant@ as int;
            let t1 = terms_val(self.terms@);
            // fold both reduced parts back together
            lemma_cadd(constant@ as int, k@ * c1, terms_val(r.terms@), k@ * t1, md);
            vstd::arithmetic::div_mod::lemma_mod_twice(constant@ + terms_val(r.terms@), md);
            assert(k@ * c1 + k@ * t1 == k@ * (c1 + t1)) by (nonlinear_arith);
            lemma_cmul(lc_val(*self), c1 + t1, k@ as int, md);
            assert(lc_val(*self) * k@ == k@ * lc_val(*self)) by (nonlinear_arith);
            assert((c1 + t1) * k@ == k@ * (c1 + t1)) by (nonlinear_arith);
            vstd::arithmetic::div_mod::lemma_mod_twice(k@ * lc_val(*self), md);
        }
        r
    }

    /// The difference of two linear combinations; no gate is emitted.
    pub fn sub(&self, other: &LinearCombination) -> (r: LinearCombination)
        requires
            self.wf(),
            other.wf(),
        ensures
            r.wf(),
            lc_val(r) == (lc_val(*self) - lc_val(*other)) % (fp_m() as int),
            r.terms@.len() == self.terms@.len() + other.terms@.len(),
    {
        let ghost md = fp_m() as int;
        let neg_one = fp_sub(&Fp::zero(), &Fp::one());
        let negated = other.scale(&neg_one);
        let r = self.add(&negated);
        proof {
            let b = lc_val(*other);
            // negating scales by m - 1, which is congruent to -1
            assert(neg_one@ == (fp_m() - 1) % (fp_m() as int));
            vstd::arithmetic::div_mod::lemma_small_mod((fp_m() - 1) as nat, fp_m());
            assert(neg_one@ * b == (fp_m() as int) * b + (-1) * b) by (nonlinear_arith)
                requires
                    neg_one@ == fp_m() - 1,
            ;
            vstd::arithmetic::div_mod::lemma_mod_multiples_vanish(b, (-1) * b, md);
            assert(lc_val(negated) == ((-1) * b) % md);
            lemma_cadd(lc_val(*self), lc_val(*self), ((-1) * b) % md, (-1) * b, md);
            vstd::arithmetic::div_mod::lemma_mod_twice(((-1) * b) as int, md);
            vstd::arithmetic::div_mod::lemma_mod_twice(lc_val(*self) + ((-1) * b) % md, md);
            assert(lc_val(*self) + (-1) * b == lc_val(*self) - b) by (nonlinear_arith);
        }
        r
    }

    /// Evaluates the combination under the current assignment.
    pub fn eval(&self) -> (r: Fp)
        requires
            self.wf(),
        ensures
            r.wf(),
            r@ == lc_val(*self),
    {
        let ghost md = fp_m() as int;
        let mut acc = self.constant;
        let n = self.terms.len();
        let mut i: usize = 0;
        proof {
            assert(self.terms@.take(0) =~= Seq::<(Fp, Variable)>::empty());
            vstd::arithmetic::div_mod::lemma_small_mod(acc@, fp_m());
        }
        while i < n
            invariant
                i <= n,
                n == self.terms@.len(),
                self.wf(),
                acc.wf(),
                acc@ == (self.constant@ + terms_val(self.terms@.take(i as int))) % (
                fp_m() as int),
            decreases n - i,
        {
            let (c, v) = self.terms[i];
            let prod = fp_mul(&c, &v.value);
            let next = fp_add(&acc, &prod);
            proof {
                let md = fp_m() as int;
                lemma_terms_val_take_step(self.terms@, i as int);
                let base = self.constant@ + terms_val(self.terms@.take(i as int));
                let term = (c@ * v.value@) as int;
                lemma_cadd(acc@ as int, base, prod@ as int, term, md);
                vstd::arithmetic::div_mod::lemma_mod_twice(term, md);
                vstd::arithmetic::div_mod::lemma_mod_twice((acc@ + prod@) as int, md);
            }
            acc = next;
            i = i + 1;
        }
        proof {
            assert(self.terms@.take(n as int) =~= self.terms@);
        }
        acc
    }
}

/// One multiplication gate `A * B = C` over linear combinations.
#[derive(Clone, Debug)]
pub struct Constraint {
    /// The left operand.
    pub a: LinearCombination,
    /// The right operand.
    pub b: LinearCombination,
    /// The claimed product.
    pub c: LinearCombination,
}

impl Constraint {
    /// All three operands are canonical.
    pub open spec fn wf(&self) -> bool {
        self.a.wf() && self.b.wf() && self.c.wf()
    }
}

/// The constraint holds under the current assignment.
pub open spec fn constraint_holds(g: Constraint) -> bool {
    (lc_val(g.a) * lc_val(g.b)) % (fp_m() as int) == lc_val(g.c)
}

/// How many entries of `s` are the mode `m`.
pub open spec fn count_mode(s: Seq<Mode>, m: Mode) -> nat
    decreases s.len(),
{
    if s.len() == 0 {
        0
    } else {
        (if s[0] == m {
            1nat
        } else {
            0nat
        }) + count_mode(s.subrange(1, s.len() as int), m)
    }
}

/// Appending an entry adjusts the count by zero or one.
pub proof fn lemma_count_mode_push(s: Seq<Mode>, x: Mode, m: Mode)
    ensures
        count_mode(s.push(x), m) == count_mode(s, m) + (if x == m {
            1nat
        } else {
            0nat
        }),
    decreases s.len(),
{
    if s.len() == 0 {
        assert(s.push(x).subrange(1, 1) =~= Seq::<Mode>::empty());
        assert(count_mode(Seq::<Mode>::empty(), m) == 0);
    } else {
        let r = s.subrange(1, s.len() as int);
        assert(s.push(x).subrange(1, (s.len() + 1) as int) =~= r.push(x));
        lemma_count_mode_push(r, x, m);
    }
}

/// The count never exceeds the length.
pub proof fn lemma_count_mode_le_len(s: Seq<Mode>, m: Mode)
    ensures
        count_mode(s, m) <= s.len(),
    decreases s.len(),
{
    if s.len() > 0 {
        lemma_count_mode_le_len(s.subrange(1, s.len() as int), m);
    }
}

/// The constraint-accumulating environment for one synthesis session.
///
/// `reset` returns a used environment to its empty state; `halt` poisons
/// it, and a poisoned environment reports itself unsatisfied until reset.
#[derive(Debug)]
pub struct Environment {
    /// The visibility mode of each allocated variable, in allocation
    /// order; constants are recorded here too, for cost accounting.
    pub vars: Vec<Mode>,
    /// The accumulated multiplication gates.
    pub constraints: Vec<Constraint>,
    /// The scope stack: name, and the allocation and constraint counts
    /// at entry.
    pub scopes: Vec<(String, usize, usize)>,
    /// Whether a fatal precondition failure has poisoned the session.
    pub halted: bool,
}

impl Environment {
    /// All recorded gates are canonical and scope snapshots are within
    /// bounds.
    pub open spec fn wf(&self) -> bool {
        &&& forall|i: int|
            0 <= i < self.constraints@.len() ==> (#[trigger] self.constraints@[i]).wf()
        &&& forall|i: int|
            0 <= i < self.scopes@.len() ==> (#[trigger] self.scopes@[i]).1
                <= self.vars@.len() && self.scopes@[i].2 <= self.constraints@.len()
    }

    /// Every recorded gate holds under the current assignment.
    pub open spec fn all_gates_hold(&self) -> bool {
        forall|i: int|
            0 <= i < self.constraints@.len() ==> constraint_holds(
                #[trigger] self.constraints@[i],
            )
    }

    /// Every gate recorded at or after index `from` holds.
    pub open spec fn gates_hold_from(&self, from: int) -> bool {
        forall|i: int|
            from <= i < self.constraints@.len() ==> constraint_holds(
                #[trigger] self.constraints@[i],
            )
    }

    /// The index of the first variable and first constraint of the
    /// current scope.
    pub open spec fn scope_start(&self) -> (int, int) {
        if self.scopes@.len() == 0 {
            (0, 0)
        } else {
            (self.scopes@.last().1 as int, self.scopes@.last().2 as int)
        }
    }

    /// A fresh, empty environment.
    pub fn new() -> (r: Environment)
        ensures
            r.wf(),
            r.vars@.len() == 0,
            r.constraints@.len() == 0,
            r.scopes@.len() == 0,
            !r.halted,
    {
        Environment { vars: Vec::new(), constraints: Vec::new(), scopes: Vec::new(), halted: false }
    }

    /// Clears all allocation, constraint and scope state, returning the
    /// environment to its initial empty state.
    pub fn reset(&mut self)
        ensures
            final (self).wf(),
            final (self).vars@.len() == 0,
            final (self).constraints@.len() == 0,
            final (self).scopes@.len() == 0,
            !final (self).halted,
    {
        self.vars = Vec::new();
        self.constraints = Vec::new();
        self.scopes = Vec::new();
        self.halted = false;
    }

    /// Aborts the synthesis session: the environment is poisoned and must
    /// be reset before further use. The message describes the fatal
    /// condition for diagnostics.
    pub fn halt(&mut self, _message: &str)
        ensures
            final (self).vars@ == old(self).vars@,
            final (self).constraints@ == old(self).constraints@,
            final (self).scopes@ == old(self).scopes@,
            final (self).halted,
    {
        self.halted = true;
    }

    /// Whether the session has been poisoned by a fatal failure.
    pub fn is_halted(&self) -> (r: bool)
        ensures
            r == self.halted,
    {
        self.halted
    }

    /// Allocates a new variable of the given mode and value. Constants
    /// are counted but receive no witness slot in a real proving system.
    pub fn new_variable(&mut self, mode: Mode, value: Fp) -> (v: Variable)
        requires
            value.wf(),
        ensures
            v.mode == mode,
            v.value == value,
            v.wf(),
            final (self).vars@ == old(self).vars@.push(mode),
            final (self).constraints@ == old(self).constraints@,
            final (self).scopes@ == old(self).scopes@,
            final (self).halted == old(self).halted,
    {
        self.vars.push(mode);
        Variable { mode, value }
    }

    /// Adds one constraint enforcing `a * b = c`. One over constants alone is
    /// checked numerically on the spot — it never becomes a real gate,
    /// and a failing one poisons the session — while any other gate is
    /// appended to the constraint list.
    pub fn enforce(&mut self, a: LinearCombination, b: LinearCombination, c: LinearCombination)
        requires
            a.wf(),
            b.wf(),
            c.wf(),
            old(self).wf(),
        ensures
            final (self).wf(),
            final (self).vars@ == old(self).vars@,
            final (self).scopes@ == old(self).scopes@,
            a.is_constant_spec() && b.is_constant_spec() && c.is_constant_spec() ==> {
                &&& final (self).constraints@ == old(self).constraints@
                &&& (final (self).halted <==> old(self).halted || (lc_val(a) * lc_val(b)) % (
                fp_m() as int) != lc_val(c))
            },
            !(a.is_constant_spec() && b.is_constant_spec() && c.is_constant_spec()) ==> {
                &&& final (self).constraints@ == old(self).constraints@.push(
                    Constraint { a, b, c },
                )
                &&& final (self).halted == old(self).halted
                &&& (final (self).all_gates_hold() <==> old(self).all_gates_hold()
                    && constraint_holds(Constraint { a, b, c }))
            },
    {
        if a.is_constant() && b.is_constant() && c.is_constant() {
            let av = a.eval();
            let bv = b.eval();
            let cv = c.eval();
            let prod = fp_mul(&av, &bv);
            if !prod.eq_value(&cv) {
                self.halted = true;
            }
        } else {
            let ghost g = Constraint { a, b, c };
            let ghost old_cs = self.constraints@;
            self.constraints.push(Constraint { a, b, c });
            proof {
                assert forall|i: int| 0 <= i < old_cs.len() implies self.constraints@[i]
                    == old_cs[i] by {}
                if self.all_gates_hold() {
                    assert(forall|i: int|
                        0 <= i < old_cs.len() ==> constraint_holds(#[trigger] old_cs[i]));
                    assert(constraint_holds(self.constraints@[old_cs.len() as int]));
                }
                if forall|i: int|
                    0 <= i < old_cs.len() ==> constraint_holds(#[trigger] old_cs[i]) {
                    if constraint_holds(g) {
                        assert forall|i: int|
                            0 <= i < self.constraints@.len() implies constraint_holds(
                            #[trigger] self.constraints@[i],
                        ) by {
                            if i < old_cs.len() {
                                assert(constraint_holds(old_cs[i]));
                            } else {
                                assert(self.constraints@[i] == g);
                            }
                        }
                    }
                }
            }
        }
    }

    /// Adds one constraint enforcing that `b` is one.
    pub fn enforce_true(&mut self, b: LinearCombination)
        requires
            b.wf(),
            old(self).wf(),
        ensures
            final (self).wf(),
            final (self).vars@ == old(self).vars@,
            final (self).scopes@ == old(self).scopes@,
            b.is_constant_spec() ==> {
                &&& final (self).constraints@ == old(self).constraints@
                &&& (final (self).halted <==> old(self).halted || lc_val(b) != 1)
            },
            !b.is_constant_spec() ==> {
                &&& final (self).constraints@.len() == old(self).constraints@.len() + 1
                &&& final (self).halted == old(self).halted
                &&& (final (self).all_gates_hold() <==> old(self).all_gates_hold() && lc_val(b)
                    == 1)
            },
    {
        let one_l = LinearCombination::from_constant(Fp::one());
        let one_r = LinearCombination::from_constant(Fp::one());
        proof {
            lemma_one_gate_value(b, one_l);
        }
        self.enforce(b, one_l, one_r);
    }

    /// Adds one constraint enforcing that `a` equals `b`.
    pub fn enforce_eq(&mut self, a: LinearCombination, b: LinearCombination)
        requires
            a.wf(),
            b.wf(),
            old(self).wf(),
        ensures
            final (self).wf(),
            final (self).vars@ == old(self).vars@,
            final (self).scopes@ == old(self).scopes@,
            a.is_constant_spec() && b.is_constant_spec() ==> {
                &&& final (self).constraints@ == old(self).constraints@
                &&& (final (self).halted <==> old(self).halted || lc_val(a) != lc_val(b))
            },
            !(a.is_constant_spec() && b.is_constant_spec()) ==> {
                &&& final (self).constraints@.len() == old(self).constraints@.len() + 1
                &&& final (self).halted == old(self).halted
                &&& (final (self).all_gates_hold() <==> old(self).all_gates_hold() && lc_val(a)
                    == lc_val(b))
            },
    {
        let one = LinearCombination::from_constant(Fp::one());
        proof {
            lemma_one_gate_value(a, one);
        }
        self.enforce(a, one, b);
    }
}

impl Environment {
    /// Whether every gate recorded from index `from` on holds under the
    /// current assignment.
    fn check_gates_from(&self, from: usize) -> (r: bool)
        requires
            self.wf(),
            from <= self.constraints@.len(),
        ensures
            r <==> self.gates_hold_from(from as int),
    {
        let n = self.constraints.len();
        let mut i = from;
        while i < n
            invariant
                from <= i <= n,
                n == self.constraints@.len(),
                self.wf(),
                forall|k: int|
                    from <= k < i ==> constraint_holds(#[trigger] self.constraints@[k]),
            decreases n - i,
        {
            let g = &self.constraints[i];
            let av = g.a.eval();
            let bv = g.b.eval();
            let cv = g.c.eval();
            let prod = fp_mul(&av, &bv);
            if !prod.eq_value(&cv) {
                return false;
            }
            i = i + 1;
        }
        true
    }

    /// Returns `true` if the session is not poisoned and every recorded
    /// gate is satisfied under the current witness assignment.
    pub fn is_satisfied(&self) -> (r: bool)
        requires
            self.wf(),
        ensures
            r <==> !self.halted && self.all_gates_hold(),
    {
        if self.halted {
            return false;
        }
        let r = self.check_gates_from(0);
        proof {
            assert(self.gates_hold_from(0) <==> self.all_gates_hold());
        }
        r
    }

    /// Returns `true` if the session is not poisoned and every gate of
    /// the current scope is satisfied.
    pub fn is_satisfied_in_scope(&self) -> (r: bool)
        requires
            self.wf(),
        ensures
            r <==> !self.halted && self.gates_hold_from(self.scope_start().1),
    {
        if self.halted {
            return false;
        }
        let from: usize = if self.scopes.len() == 0 {
            0
        } else {
            self.scopes[self.scopes.len() - 1].2
        };
        self.check_gates_from(from)
    }

    /// Enters a new named scope, recording the allocation and constraint
    /// counts at entry for cost attribution.
    pub fn push_scope(&mut self, name: &str)
        requires
            old(self).wf(),
        ensures
            final (self).wf(),
            final (self).vars@ == old(self).vars@,
            final (self).constraints@ == old(self).constraints@,
            final (self).halted == old(self).halted,
            final (self).scopes@.len() == old(self).scopes@.len() + 1,
            final (self).scopes@.last().1 == old(self).vars@.len(),
            final (self).scopes@.last().2 == old(self).constraints@.len(),
            final (self).scopes@.take(old(self).scopes@.len() as int) == old(self).scopes@,
    {
        let vlen = self.vars.len();
        let clen = self.constraints.len();
        self.scopes.push((name.to_owned(), vlen, clen));
        proof {
            assert(final (self).scopes@.take(old(self).scopes@.len() as int) =~= old(
                self,
            ).scopes@);
        }
    }

    /// Leaves the current scope. Leaving with no scope open is a no-op.
    pub fn pop_scope(&mut self)
        requires
            old(self).wf(),
        ensures
            final (self).wf(),
            final (self).vars@ == old(self).vars@,
            final (self).constraints@ == old(self).constraints@,
            final (self).halted == old(self).halted,
            old(self).scopes@.len() > 0 ==> final (self).scopes@ == old(self).scopes@.drop_last(),
            old(self).scopes@.len() == 0 ==> final (self).scopes@ == old(self).scopes@,
    {
        if self.scopes.len() > 0 {
            let _ = self.scopes.pop();
        }
    }

    /// Counts the variables of mode `m` allocated from index `from` on.
    fn count_vars_from(&self, m: Mode, from: usize) -> (r: usize)
        requires
            from <= self.vars@.len(),
        ensures
            r == count_mode(self.vars@.skip(from as int), m),
    {
        let n = self.vars.len();
        let mut i = from;
        let mut cnt: usize = 0;
        proof {
            assert(self.vars@.skip(from as int).take(0) =~= Seq::<Mode>::empty());
        }
        while i < n
            invariant
                from <= i <= n,
                n == self.vars@.len(),
                cnt <= i - from,
                cnt == count_mode(self.vars@.skip(from as int).take(i - from), m),
            decreases n - i,
        {
            let ghost prefix = self.vars@.skip(from as int).take(i - from);
            let matches_mode = match (self.vars[i], m) {
                (Mode::Constant, Mode::Constant) => true,
                (Mode::Public, Mode::Public) => true,
                (Mode::Private, Mode::Private) => true,
                _ => false,
            };
            proof {
                assert(self.vars@.skip(from as int).take(i + 1 - from) =~= prefix.push(
                    self.vars@[i as int],
                ));
                lemma_count_mode_push(prefix, self.vars@[i as int], m);
            }
            if matches_mode {
                cnt = cnt + 1;
            }
            i = i + 1;
        }
        proof {
            assert(self.vars@.skip(from as int).take(n - from) =~= self.vars@.skip(
                from as int,
            ));
        }
        cnt
    }

    /// The number of constants allocated in the entire environment.
    pub fn num_constants(&self) -> (r: usize)
        ensures
            r == count_mode(self.vars@, Mode::Constant),
    {
        let r = self.count_vars_from(Mode::Constant, 0);
        proof {
            assert(self.vars@.skip(0) =~= self.vars@);
        }
        r
    }

    /// The number of public variables allocated in the entire
    /// environment.
    pub fn num_public(&self) -> (r: usize)
        ensures
            r == count_mode(self.vars@, Mode::Public),
    {
        let r = self.count_vars_from(Mode::Public, 0);
        proof {
            assert(self.vars@.skip(0) =~= self.vars@);
        }
        r
    }

    /// The number of private variables allocated in the entire
    /// environment.
    pub fn num_private(&self) -> (r: usize)
        ensures
            r == count_mode(self.vars@, Mode::Private),
    {
        let r = self.count_vars_from(Mode::Private, 0);
        proof {
            assert(self.vars@.skip(0) =~= self.vars@);
        }
        r
    }

    /// The number of constraints in the entire environment.
    pub fn num_constraints(&self) -> (r: usize)
        ensures
            r == self.constraints@.len(),
    {
        self.constraints.len()
    }

    /// The number of gates in the entire environment; every constraint
    /// is realized as one multiplication gate.
    pub fn num_gates(&self) -> (r: usize)
        ensures
            r == self.constraints@.len(),
    {
        self.constraints.len()
    }

    /// The first variable index of the current scope.
    fn scope_var_start(&self) -> (r: usize)
        requires
            self.wf(),
        ensures
            r == self.scope_start().0,
            r <= self.vars@.len(),
    {
        if self.scopes.len() == 0 {
            0
        } else {
            self.scopes[self.scopes.len() - 1].1
        }
    }

    /// The number of constants allocated in the current scope.
    pub fn num_constants_in_scope(&self) -> (r: usize)
        requires
            self.wf(),
        ensures
            r == count_mode(self.vars@.skip(self.scope_start().0), Mode::Constant),
    {
        let from = self.scope_var_start();
        self.count_vars_from(Mode::Constant, from)
    }

    /// The number of public variables allocated in the current scope.
    pub fn num_public_in_scope(&self) -> (r: usize)
        requires
            self.wf(),
        ensures
            r == count_mode(self.vars@.skip(self.scope_start().0), Mode::Public),
    {
        let from = self.scope_var_start();
        self.count_vars_from(Mode::Public, from)
    }

    /// The number of private variables allocated in the current scope.
    pub fn num_private_in_scope(&self) -> (r: usize)
        requires
            self.wf(),
        ensures
            r == count_mode(self.vars@.skip(self.scope_start().0), Mode::Private),
    {
        let from = self.scope_var_start();
        self.count_vars_from(Mode::Private, from)
    }

    /// The number of constraints recorded in the current scope.
    pub fn num_constraints_in_scope(&self) -> (r: usize)
        requires
            self.wf(),
        ensures
            r == self.constraints@.len() - self.scope_start().1,
    {
        let from: usize = if self.scopes.len() == 0 {
            0
        } else {
            self.scopes[self.scopes.len() - 1].2
        };
        self.constraints.len() - from
    }

    /// The number of gates recorded in the current scope.
    pub fn num_gates_in_scope(&self) -> (r: usize)
        requires
            self.wf(),
        ensures
            r == self.constraints@.len() - self.scope_start().1,
    {
        self.num_constraints_in_scope()
    }
}

/// Multiplying a linear combination's value by a constant one leaves it
/// unchanged, modulo the prime.
proof fn lemma_one_gate_value(b: LinearCombination, one: LinearCombination)
    requires
        lc_val(one) == 1,
    ensures
        (lc_val(b) * lc_val(one)) % (fp_m() as int) == lc_val(b),
{
    let md = fp_m() as int;
    assert(lc_val(b) * 1 == lc_val(b)) by (nonlinear_arith);
    assert(0 <= lc_val(b) < md);
    vstd::arithmetic::div_mod::lemma_small_mod(lc_val(b) as nat, fp_m());
}

} // verus!
