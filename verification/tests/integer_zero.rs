//! The integer zero of every width: its cost, its value, and its
//! relation to one.

use snarkcore::environment::Environment;
use snarkcore::types::integer::Integer;

fn check_zero(width: usize, signed: bool) {
    let mut env = Environment::new();
    env.push_scope("Zero");
    assert_eq!(env.num_constants_in_scope(), 0);
    assert_eq!(env.num_public_in_scope(), 0);
    assert_eq!(env.num_private_in_scope(), 0);
    assert_eq!(env.num_constraints_in_scope(), 0);
    let zero = Integer::zero(&mut env, width, signed);
    assert_eq!(zero.to_u128(), 0);
    assert_eq!(env.num_constants_in_scope(), width);
    assert_eq!(env.num_public_in_scope(), 0);
    assert_eq!(env.num_private_in_scope(), 0);
    assert_eq!(env.num_constraints_in_scope(), 0);
    env.pop_scope();

    let candidate = Integer::zero(&mut env, width, signed);
    // Should equal 0.
    assert!(candidate.is_zero(&mut env).eject_value());
    // Should not equal 1.
    assert!(!candidate.is_one(&mut env).eject_value());
}

#[test]
fn test_u8_zero() {
    check_zero(8, false);
}

#[test]
fn test_i8_zero() {
    check_zero(8, true);
}

#[test]
fn test_u16_zero() {
    check_zero(16, false);
}

#[test]
fn test_i16_zero() {
    check_zero(16, true);
}

#[test]
fn test_u32_zero() {
    check_zero(32, false);
}

#[test]
fn test_i32_zero() {
    check_zero(32, true);
}

#[test]
fn test_u64_zero() {
    check_zero(64, false);
}

#[test]
fn test_i64_zero() {
    check_zero(64, true);
}

#[test]
fn test_u128_zero() {
    check_zero(128, false);
}

#[test]
fn test_i128_zero() {
    check_zero(128, true);
}
