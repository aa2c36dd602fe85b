//! Integer subtraction and multiplication across modes: native
//! semantics for wrapped operations, halting on constant overflow, and
//! unsatisfiable systems on non-constant overflow.

use snarkcore::environment::Environment;
use snarkcore::mode::Mode;
use snarkcore::types::integer::Integer;

fn new_u8(env: &mut Environment, mode: Mode, value: u8) -> Integer {
    Integer::new_unsigned(env, mode, value as u128, 8)
}

fn new_i8(env: &mut Environment, mode: Mode, value: i8) -> Integer {
    Integer::new_signed(env, mode, value as i128, 8)
}

fn check_sub_wrapped_u8(mode_a: Mode, mode_b: Mode) {
    let cases: [(u8, u8); 6] = [(0, 0), (5, 10), (10, 5), (0, 1), (u8::MIN, 1), (u8::MAX, u8::MAX)];
    for (first, second) in cases {
        let mut env = Environment::new();
        let a = new_u8(&mut env, mode_a, first);
        let b = new_u8(&mut env, mode_b, second);
        let difference = a.sub_wrapped(&mut env, &b);
        assert_eq!(difference.to_u128() as u8, first.wrapping_sub(second));
        assert!(env.is_satisfied());
        assert!(!env.is_halted());
    }
}

fn check_sub_wrapped_i8(mode_a: Mode, mode_b: Mode) {
    let cases: [(i8, i8); 6] = [(0, 0), (5, 10), (-5, 10), (i8::MIN, 1), (i8::MAX, -1), (-128, -128)];
    for (first, second) in cases {
        let mut env = Environment::new();
        let a = new_i8(&mut env, mode_a, first);
        let b = new_i8(&mut env, mode_b, second);
        let difference = a.sub_wrapped(&mut env, &b);
        assert_eq!(difference.to_u128() as u8 as i8, first.wrapping_sub(second));
        assert!(env.is_satisfied());
        assert!(!env.is_halted());
    }
}

#[test]
fn test_u8_sub_wrapped_all_modes() {
    for mode_a in [Mode::Constant, Mode::Public, Mode::Private] {
        for mode_b in [Mode::Constant, Mode::Public, Mode::Private] {
            check_sub_wrapped_u8(mode_a, mode_b);
            check_sub_wrapped_i8(mode_a, mode_b);
        }
    }
}

fn check_sub_checked_u8(mode_a: Mode, mode_b: Mode, first: u8, second: u8) {
    let mut env = Environment::new();
    let a = new_u8(&mut env, mode_a, first);
    let b = new_u8(&mut env, mode_b, second);
    let constant_operands = matches!((mode_a, mode_b), (Mode::Constant, Mode::Constant));
    let difference = a.sub_checked(&mut env, &b);
    match first.checked_sub(second) {
        Some(expected) => {
            assert!(!env.is_halted());
            assert!(env.is_satisfied());
            assert_eq!(difference.to_u128() as u8, expected);
        }
        None => {
            if constant_operands {
                assert!(env.is_halted());
            } else {
                assert!(!env.is_halted());
                assert!(!env.is_satisfied());
            }
        }
    }
}

fn check_sub_checked_i8(mode_a: Mode, mode_b: Mode, first: i8, second: i8) {
    let mut env = Environment::new();
    let a = new_i8(&mut env, mode_a, first);
    let b = new_i8(&mut env, mode_b, second);
    let constant_operands = matches!((mode_a, mode_b), (Mode::Constant, Mode::Constant));
    let difference = a.sub_checked(&mut env, &b);
    match first.checked_sub(second) {
        Some(expected) => {
            assert!(!env.is_halted());
            assert!(env.is_satisfied());
            assert_eq!(difference.to_u128() as u8 as i8, expected);
        }
        None => {
            if constant_operands {
                assert!(env.is_halted());
            } else {
                assert!(!env.is_halted());
                assert!(!env.is_satisfied());
            }
        }
    }
}

#[test]
fn test_sub_checked_all_modes() {
    let unsigned_cases: [(u8, u8); 5] = [(5, 10), (10, 5), (0, 0), (u8::MIN, 1), (u8::MAX, u8::MAX)];
    let signed_cases: [(i8, i8); 6] =
        [(5, 10), (-5, 10), (i8::MIN, 1), (i8::MAX, -1), (0, i8::MIN), (-1, i8::MAX)];
    for mode_a in [Mode::Constant, Mode::Public, Mode::Private] {
        for mode_b in [Mode::Constant, Mode::Public, Mode::Private] {
            for (first, second) in unsigned_cases {
                check_sub_checked_u8(mode_a, mode_b, first, second);
            }
            for (first, second) in signed_cases {
                check_sub_checked_i8(mode_a, mode_b, first, second);
            }
        }
    }
}

fn check_mul_checked_u8(mode_a: Mode, mode_b: Mode, first: u8, second: u8) {
    let mut env = Environment::new();
    let a = new_u8(&mut env, mode_a, first);
    let b = new_u8(&mut env, mode_b, second);
    let constant_operands = matches!((mode_a, mode_b), (Mode::Constant, Mode::Constant));
    let product = a.mul_checked(&mut env, &b);
    match first.checked_mul(second) {
        Some(expected) => {
            assert!(!env.is_halted());
            assert!(env.is_satisfied());
            assert_eq!(product.to_u128() as u8, expected);
        }
        None => {
            if constant_operands {
                assert!(env.is_halted());
            } else {
                assert!(!env.is_halted());
                assert!(!env.is_satisfied());
            }
        }
    }
}

fn check_mul_checked_i8(mode_a: Mode, mode_b: Mode, first: i8, second: i8) {
    let mut env = Environment::new();
    let a = new_i8(&mut env, mode_a, first);
    let b = new_i8(&mut env, mode_b, second);
    let constant_operands = matches!((mode_a, mode_b), (Mode::Constant, Mode::Constant));
    let product = a.mul_checked(&mut env, &b);
    match first.checked_mul(second) {
        Some(expected) => {
            assert!(!env.is_halted(), "({} * {})", first, second);
            assert!(env.is_satisfied(), "({} * {})", first, second);
            assert_eq!(product.to_u128() as u8 as i8, expected);
        }
        None => {
            if constant_operands {
                assert!(env.is_halted());
            } else {
                assert!(!env.is_halted());
                assert!(!env.is_satisfied());
            }
        }
    }
}

#[test]
fn test_mul_checked_all_modes() {
    let unsigned_cases: [(u8, u8); 7] =
        [(0, 0), (1, u8::MAX), (5, 10), (16, 16), (u8::MAX, 2), (2, u8::MAX), (u8::MAX, u8::MAX)];
    let signed_cases: [(i8, i8); 8] = [
        (0, 0),
        (1, i8::MAX),
        (5, 10),
        (-5, 10),
        (i8::MAX, -1),
        (i8::MIN, -1),
        (i8::MIN, 1),
        (-11, -12),
    ];
    for mode_a in [Mode::Constant, Mode::Public, Mode::Private] {
        for mode_b in [Mode::Constant, Mode::Public, Mode::Private] {
            for (first, second) in unsigned_cases {
                check_mul_checked_u8(mode_a, mode_b, first, second);
            }
            for (first, second) in signed_cases {
                check_mul_checked_i8(mode_a, mode_b, first, second);
            }
        }
    }
}

#[test]
fn test_u8_constant_max_times_two_halts() {
    // the constant product of the maximum and two overflows and is fatal
    let mut env = Environment::new();
    let a = new_u8(&mut env, Mode::Constant, u8::MAX);
    let b = new_u8(&mut env, Mode::Constant, 2);
    let _ = a.mul_checked(&mut env, &b);
    assert!(env.is_halted());
}

#[test]
fn test_u8_public_max_times_two_unsatisfiable() {
    // the same product over public operands synthesizes, but no witness
    // satisfies it
    let mut env = Environment::new();
    let a = new_u8(&mut env, Mode::Public, u8::MAX);
    let b = new_u8(&mut env, Mode::Public, 2);
    let _ = a.mul_checked(&mut env, &b);
    assert!(!env.is_halted());
    assert!(!env.is_satisfied());
}

#[test]
fn test_u8_constant_five_minus_ten_halts() {
    let mut env = Environment::new();
    let a = new_u8(&mut env, Mode::Constant, 5);
    let b = new_u8(&mut env, Mode::Constant, 10);
    let _ = a.sub_checked(&mut env, &b);
    assert!(env.is_halted());
}

#[test]
fn test_u8_public_five_minus_ten_unsatisfiable() {
    let mut env = Environment::new();
    let a = new_u8(&mut env, Mode::Public, 5);
    let b = new_u8(&mut env, Mode::Public, 10);
    let _ = a.sub_checked(&mut env, &b);
    assert!(!env.is_halted());
    assert!(!env.is_satisfied());
}

#[test]
fn test_wider_widths_wrap_and_check() {
    let mut env = Environment::new();
    let a = Integer::new_unsigned(&mut env, Mode::Private, u64::MAX as u128, 64);
    let b = Integer::new_unsigned(&mut env, Mode::Private, 1, 64);
    let sum_back = a.sub_wrapped(&mut env, &b);
    assert_eq!(sum_back.to_u128(), (u64::MAX - 1) as u128);
    assert!(env.is_satisfied());

    let mut env = Environment::new();
    let a = Integer::new_signed(&mut env, Mode::Private, i128::MIN, 128);
    let b = Integer::new_signed(&mut env, Mode::Private, 1, 128);
    let diff = a.sub_wrapped(&mut env, &b);
    assert_eq!(diff.to_u128() as i128, i128::MIN.wrapping_sub(1));
    assert!(env.is_satisfied());
}

#[test]
fn test_u128_mul_checked() {
    // the full 128-bit width, through the split product
    let cases: [(u128, u128); 6] = [
        (0, 0),
        (1, u128::MAX),
        (1 << 64, 1 << 63),
        (1 << 64, 1 << 64),
        (u128::MAX, 2),
        (u128::MAX, u128::MAX),
    ];
    for mode in [Mode::Constant, Mode::Public, Mode::Private] {
        for (first, second) in cases {
            let mut env = Environment::new();
            let a = Integer::new_unsigned(&mut env, mode, first, 128);
            let b = Integer::new_unsigned(&mut env, mode, second, 128);
            let constant_operands = matches!(mode, Mode::Constant);
            let product = a.mul_checked(&mut env, &b);
            match first.checked_mul(second) {
                Some(expected) => {
                    assert!(!env.is_halted());
                    assert!(env.is_satisfied());
                    assert_eq!(product.to_u128(), expected);
                }
                None => {
                    if constant_operands {
                        assert!(env.is_halted());
                    } else {
                        assert!(!env.is_halted());
                        assert!(!env.is_satisfied());
                    }
                }
            }
        }
    }
}

#[test]
fn test_i128_mul_checked() {
    let cases: [(i128, i128); 6] = [
        (0, 0),
        (1, i128::MAX),
        (i128::MIN, 1),
        (i128::MIN, -1),
        (i128::MAX, -1),
        (1 << 63, 1 << 63),
    ];
    for mode in [Mode::Constant, Mode::Public, Mode::Private] {
        for (first, second) in cases {
            let mut env = Environment::new();
            let a = Integer::new_signed(&mut env, mode, first, 128);
            let b = Integer::new_signed(&mut env, mode, second, 128);
            let constant_operands = matches!(mode, Mode::Constant);
            let product = a.mul_checked(&mut env, &b);
            match first.checked_mul(second) {
                Some(expected) => {
                    assert!(!env.is_halted(), "({} * {})", first, second);
                    assert!(env.is_satisfied(), "({} * {})", first, second);
                    assert_eq!(product.to_u128() as i128, expected);
                }
                None => {
                    if constant_operands {
                        assert!(env.is_halted());
                    } else {
                        assert!(!env.is_halted());
                        assert!(!env.is_satisfied());
                    }
                }
            }
        }
    }
}
