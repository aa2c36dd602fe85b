//! Extracting the lower bits of a field element, at every supported
//! width and mode, with the documented allocation and constraint costs.

use snarkcore::environment::Environment;
use snarkcore::fp::Fp;
use snarkcore::mode::Mode;
use snarkcore::types::field::Field;

fn check_to_lower_k_bits_le(
    k: usize,
    samples: &[u128],
    mode: Mode,
    num_constants: usize,
    num_public: usize,
    num_private: usize,
    num_constraints: usize,
) {
    for &value in samples {
        let mut env = Environment::new();
        let candidate = Field::new(&mut env, mode, Fp::from_u128(value));
        env.push_scope("extract");
        let bits = candidate.to_lower_bits_le(&mut env, k);
        assert_eq!(bits.len(), k);
        for (i, bit) in bits.iter().enumerate() {
            let expected = (value >> i) & 1 == 1;
            assert_eq!(bit.eject_value(), expected, "LSB+{}", i);
        }
        assert_eq!(env.num_constants_in_scope(), num_constants);
        assert_eq!(env.num_public_in_scope(), num_public);
        assert_eq!(env.num_private_in_scope(), num_private);
        assert_eq!(env.num_constraints_in_scope(), num_constraints);
        assert!(env.is_satisfied());
        env.pop_scope();
    }
}

const SAMPLES_8: &[u128] = &[0, 1, 0x5a, 0xa5, 0xff];
const SAMPLES_16: &[u128] = &[0, 1, 0x1234, 0xfedc, 0xffff];
const SAMPLES_32: &[u128] = &[0, 1, 0x89ab_cdef, 0xffff_ffff];
const SAMPLES_64: &[u128] = &[0, 1, 0x0123_4567_89ab_cdef, u64::MAX as u128];
const SAMPLES_128: &[u128] = &[0, 1, 0x0123_4567_89ab_cdef_0123_4567_89ab_cdef, u128::MAX];

#[test]
fn test_to_8_bits_constant() {
    check_to_lower_k_bits_le(8, SAMPLES_8, Mode::Constant, 8, 0, 0, 0);
}

#[test]
fn test_to_8_bits_public() {
    check_to_lower_k_bits_le(8, SAMPLES_8, Mode::Public, 0, 0, 8, 9);
}

#[test]
fn test_to_8_bits_private() {
    check_to_lower_k_bits_le(8, SAMPLES_8, Mode::Private, 0, 0, 8, 9);
}

#[test]
fn test_to_16_bits_constant() {
    check_to_lower_k_bits_le(16, SAMPLES_16, Mode::Constant, 16, 0, 0, 0);
}

#[test]
fn test_to_16_bits_public() {
    check_to_lower_k_bits_le(16, SAMPLES_16, Mode::Public, 0, 0, 16, 17);
}

#[test]
fn test_to_16_bits_private() {
    check_to_lower_k_bits_le(16, SAMPLES_16, Mode::Private, 0, 0, 16, 17);
}

#[test]
fn test_to_32_bits_constant() {
    check_to_lower_k_bits_le(32, SAMPLES_32, Mode::Constant, 32, 0, 0, 0);
}

#[test]
fn test_to_32_bits_public() {
    check_to_lower_k_bits_le(32, SAMPLES_32, Mode::Public, 0, 0, 32, 33);
}

#[test]
fn test_to_32_bits_private() {
    check_to_lower_k_bits_le(32, SAMPLES_32, Mode::Private, 0, 0, 32, 33);
}

#[test]
fn test_to_64_bits_constant() {
    check_to_lower_k_bits_le(64, SAMPLES_64, Mode::Constant, 64, 0, 0, 0);
}

#[test]
fn test_to_64_bits_public() {
    check_to_lower_k_bits_le(64, SAMPLES_64, Mode::Public, 0, 0, 64, 65);
}

#[test]
fn test_to_64_bits_private() {
    check_to_lower_k_bits_le(64, SAMPLES_64, Mode::Private, 0, 0, 64, 65);
}

#[test]
fn test_to_128_bits_constant() {
    check_to_lower_k_bits_le(128, SAMPLES_128, Mode::Constant, 128, 0, 0, 0);
}

#[test]
fn test_to_128_bits_public() {
    check_to_lower_k_bits_le(128, SAMPLES_128, Mode::Public, 0, 0, 128, 129);
}

#[test]
fn test_to_128_bits_private() {
    check_to_lower_k_bits_le(128, SAMPLES_128, Mode::Private, 0, 0, 128, 129);
}

#[test]
fn test_out_of_range_value_is_unsatisfiable() {
    // a value beyond the requested bit width leaves the system
    // unsatisfiable for non-constant modes
    let mut env = Environment::new();
    let candidate = Field::new(&mut env, Mode::Private, Fp::from_u128(256));
    let bits = candidate.to_lower_bits_le(&mut env, 8);
    assert_eq!(bits.len(), 8);
    assert!(!env.is_satisfied());
}

#[test]
fn test_out_of_range_constant_halts() {
    // a constant beyond the requested bit width is a fatal condition
    let mut env = Environment::new();
    let candidate = Field::new(&mut env, Mode::Constant, Fp::from_u128(300));
    let _ = candidate.to_lower_bits_le(&mut env, 8);
    assert!(env.is_halted());
}
