//! Field gadget arithmetic: division at every mode combination with its
//! documented cost, equality with its exact constraint count, and the
//! soundness cases of the inequality gates.

use snarkcore::environment::{Environment, LinearCombination};
use snarkcore::fp::{fp_inverse, Fp};
use snarkcore::mode::Mode;
use snarkcore::types::boolean::Boolean;
use snarkcore::types::field::Field;

fn check_div(
    mode_a: Mode,
    mode_b: Mode,
    num_constants: usize,
    num_public: usize,
    num_private: usize,
    num_constraints: usize,
) {
    for i in 1..20u64 {
        for j in 1..20u64 {
            let mut env = Environment::new();
            let a = Field::new(&mut env, mode_a, Fp::from_u64(i));
            let b = Field::new(&mut env, mode_b, Fp::from_u64(j));
            env.push_scope("div");
            let quotient = a.div(&mut env, &b);
            // the quotient times the divisor gives back the dividend
            let mut check = Environment::new();
            let q = Field::new(&mut check, Mode::Constant, quotient.eject_value());
            let d = Field::new(&mut check, Mode::Constant, Fp::from_u64(j));
            let back = q.mul(&mut check, &d);
            assert_eq!(back.eject_value(), Fp::from_u64(i));
            assert_eq!(env.num_constants_in_scope(), num_constants);
            assert_eq!(env.num_public_in_scope(), num_public);
            assert_eq!(env.num_private_in_scope(), num_private);
            assert_eq!(env.num_constraints_in_scope(), num_constraints);
            assert!(env.is_satisfied());
            env.pop_scope();
        }
    }
}

#[test]
fn test_constant_div_constant() {
    check_div(Mode::Constant, Mode::Constant, 1, 0, 0, 0);
}

#[test]
fn test_constant_div_public() {
    check_div(Mode::Constant, Mode::Public, 0, 0, 1, 1);
}

#[test]
fn test_constant_div_private() {
    check_div(Mode::Constant, Mode::Private, 0, 0, 1, 1);
}

#[test]
fn test_public_div_constant() {
    check_div(Mode::Public, Mode::Constant, 1, 0, 0, 0);
}

#[test]
fn test_public_div_public() {
    check_div(Mode::Public, Mode::Public, 0, 0, 2, 2);
}

#[test]
fn test_public_div_private() {
    check_div(Mode::Public, Mode::Private, 0, 0, 2, 2);
}

#[test]
fn test_private_div_constant() {
    check_div(Mode::Private, Mode::Constant, 1, 0, 0, 0);
}

#[test]
fn test_private_div_public() {
    check_div(Mode::Private, Mode::Public, 0, 0, 2, 2);
}

#[test]
fn test_private_div_private() {
    check_div(Mode::Private, Mode::Private, 0, 0, 2, 2);
}

#[test]
fn test_div_by_zero_halts() {
    for mode in [Mode::Constant, Mode::Public, Mode::Private] {
        let mut env = Environment::new();
        let a = Field::new(&mut env, mode, Fp::one());
        let b = Field::new(&mut env, mode, Fp::zero());
        let _ = a.div(&mut env, &b);
        assert!(env.is_halted());
        assert!(!env.is_satisfied());
    }
}

#[test]
fn test_is_equal() {
    // Private == Private costs two witnesses and exactly three
    // constraints, with no false positives or negatives
    let mut accumulator = 2u64;
    for _ in 0..200 {
        let mut env = Environment::new();
        let a = Field::new(&mut env, Mode::Private, Fp::from_u64(accumulator));
        let b = Field::new(&mut env, Mode::Private, Fp::from_u64(accumulator));
        env.push_scope("Private == Private");
        let is_eq = a.is_equal(&mut env, &b);
        assert!(is_eq.eject_value());
        assert_eq!(env.num_constants_in_scope(), 0);
        assert_eq!(env.num_public_in_scope(), 0);
        assert_eq!(env.num_private_in_scope(), 2);
        assert_eq!(env.num_constraints_in_scope(), 3);
        assert!(env.is_satisfied());
        env.pop_scope();

        let mut env = Environment::new();
        let a = Field::new(&mut env, Mode::Private, Fp::one());
        let b = Field::new(&mut env, Mode::Private, Fp::from_u64(accumulator));
        let is_eq = a.is_equal(&mut env, &b);
        assert!(!is_eq.eject_value());
        assert!(env.is_satisfied());

        accumulator += 1;
    }

    // Constant == Constant costs one constant and no constraint
    let mut env = Environment::new();
    let a = Field::new(&mut env, Mode::Constant, Fp::from_u64(7));
    let b = Field::new(&mut env, Mode::Constant, Fp::from_u64(7));
    env.push_scope("Constant == Constant");
    let is_eq = a.is_equal(&mut env, &b);
    assert!(is_eq.eject_value());
    assert_eq!(env.num_constants_in_scope(), 1);
    assert_eq!(env.num_constraints_in_scope(), 0);
    env.pop_scope();
}

fn enforce_inequality_gates(
    env: &mut Environment,
    a: Field,
    b: Field,
    multiplier: Field,
    is_neq: Boolean,
) {
    // Check 1: (a - b) * multiplier = is_neq
    // Check 2: (a - b) * not(is_neq) = 0
    let delta = a.sub(&b);
    let delta2 = delta.duplicate();
    let is_eq = is_neq.not();
    env.enforce(delta.lc, multiplier.lc, is_neq.lc);
    env.enforce(delta2.lc, is_eq.lc, LinearCombination::from_constant(Fp::zero()));
}

#[test]
fn test_is_neq_cases() {
    let two = Fp::from_u64(2);
    let five = Fp::from_u64(5);

    // equal values with a clear indicator: satisfied
    let mut env = Environment::new();
    let a = Field::new(&mut env, Mode::Private, five);
    let b = Field::new(&mut env, Mode::Private, five);
    let multiplier = Field::new(&mut env, Mode::Private, Fp::one());
    let is_neq = Boolean::new(&mut env, Mode::Private, false);
    assert!(env.is_satisfied());
    enforce_inequality_gates(&mut env, a, b, multiplier, is_neq);
    assert!(env.is_satisfied());
    env.reset();

    // equal values with a raised indicator: rejected
    let a = Field::new(&mut env, Mode::Private, five);
    let b = Field::new(&mut env, Mode::Private, five);
    let multiplier = Field::new(&mut env, Mode::Private, Fp::one());
    let is_neq = Boolean::new(&mut env, Mode::Private, true);
    assert!(env.is_satisfied());
    enforce_inequality_gates(&mut env, a, b, multiplier, is_neq);
    assert!(!env.is_satisfied());
    env.reset();

    // distinct values with a clear indicator and zero multiplier: rejected
    let a = Field::new(&mut env, Mode::Private, five);
    let b = Field::new(&mut env, Mode::Private, two);
    let multiplier = Field::new(&mut env, Mode::Private, Fp::zero());
    let is_neq = Boolean::new(&mut env, Mode::Private, false);
    assert!(env.is_satisfied());
    enforce_inequality_gates(&mut env, a, b, multiplier, is_neq);
    assert!(!env.is_satisfied());
    env.reset();

    // distinct values with a clear indicator and unit multiplier: rejected
    let a = Field::new(&mut env, Mode::Private, five);
    let b = Field::new(&mut env, Mode::Private, two);
    let multiplier = Field::new(&mut env, Mode::Private, Fp::one());
    let is_neq = Boolean::new(&mut env, Mode::Private, false);
    assert!(env.is_satisfied());
    enforce_inequality_gates(&mut env, a, b, multiplier, is_neq);
    assert!(!env.is_satisfied());
    env.reset();

    // distinct values with a raised indicator but a wrong multiplier: rejected
    let a = Field::new(&mut env, Mode::Private, five);
    let b = Field::new(&mut env, Mode::Private, two);
    let multiplier = Field::new(&mut env, Mode::Private, two);
    let is_neq = Boolean::new(&mut env, Mode::Private, true);
    assert!(env.is_satisfied());
    enforce_inequality_gates(&mut env, a, b, multiplier, is_neq);
    assert!(!env.is_satisfied());
    env.reset();

    // distinct values with the true inverse multiplier: satisfied
    let a = Field::new(&mut env, Mode::Private, five);
    let b = Field::new(&mut env, Mode::Private, two);
    let delta = snarkcore::fp::fp_sub(&five, &two);
    let multiplier =
        Field::new(&mut env, Mode::Private, fp_inverse(&delta).expect("Failed to compute a native inverse"));
    let is_neq = Boolean::new(&mut env, Mode::Private, true);
    assert!(env.is_satisfied());
    enforce_inequality_gates(&mut env, a, b, multiplier, is_neq);
    assert!(env.is_satisfied());
}

#[test]
fn test_one() {
    let mut env = Environment::new();
    env.push_scope("One");
    assert_eq!(env.num_constants_in_scope(), 0);
    assert_eq!(env.num_constraints_in_scope(), 0);
    let candidate = Field::one();
    assert_eq!(Fp::one(), candidate.eject_value());
    assert_eq!(env.num_constants_in_scope(), 0);
    assert_eq!(env.num_constraints_in_scope(), 0);
    env.pop_scope();
}

#[test]
fn test_is_one() {
    let mut env = Environment::new();
    let candidate = Field::one();
    // Should equal 1.
    assert!(candidate.is_one(&mut env).eject_value());
    // Should not equal 0.
    assert!(!candidate.is_zero(&mut env).eject_value());
}

#[test]
fn test_lc_values() {
    let mut env = Environment::new();
    let a = Field::new(&mut env, Mode::Public, Fp::from_u64(3));
    let b = Field::new(&mut env, Mode::Private, Fp::from_u64(4));
    let sum = a.add(&b);
    assert_eq!(sum.eject_value(), Fp::from_u64(7));
    let difference = sum.sub(&a);
    assert_eq!(difference.eject_value(), Fp::from_u64(4));
    let product = a.mul(&mut env, &b);
    assert_eq!(product.eject_value(), Fp::from_u64(12));
    assert!(env.is_satisfied());
}
