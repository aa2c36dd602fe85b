//! Polynomial long division, evaluation, and the dense and sparse
//! representations.

use snarkcore::fp::{fp_m, Fp};
use snarkcore::polynomial::{DenseOrSparsePolynomial, DensePolynomial, SparsePolynomial};

fn dense_from_u64(coeffs: &[u64]) -> DensePolynomial {
    let mut v: Vec<Fp> = Vec::new();
    for &c in coeffs {
        v.push(Fp::from_u64(c));
    }
    DensePolynomial::from_coefficients_vec(v)
}

#[test]
fn test_divide_zero_polynomial() {
    // dividing the zero polynomial by any nonzero divisor yields (0, 0)
    let dividend = DenseOrSparsePolynomial::DPolynomial(DensePolynomial::zero());
    let divisor = DenseOrSparsePolynomial::DPolynomial(dense_from_u64(&[3, 1]));
    let (quotient, remainder) = dividend.divide_with_q_and_r(&divisor).unwrap();
    assert!(quotient.is_zero());
    assert!(remainder.is_zero());
}

#[test]
fn test_divide_cubic_by_x() {
    // x^3 divided by x: quotient x^2, remainder zero
    let dividend = DenseOrSparsePolynomial::DPolynomial(dense_from_u64(&[0, 0, 0, 1]));
    let divisor = DenseOrSparsePolynomial::DPolynomial(dense_from_u64(&[0, 1]));
    let (quotient, remainder) = dividend.divide_with_q_and_r(&divisor).unwrap();
    assert_eq!(quotient.coeffs.len(), 3);
    assert_eq!(quotient.coeffs[0], Fp::zero());
    assert_eq!(quotient.coeffs[1], Fp::zero());
    assert_eq!(quotient.coeffs[2], Fp::one());
    assert!(remainder.is_zero());
}

#[test]
fn test_divide_with_remainder_identity() {
    // q * d + r == p at sampled points, and deg r < deg d
    let p = dense_from_u64(&[7, 0, 5, 3, 11, 2]);
    let d = dense_from_u64(&[4, 9, 1]);
    let dividend = DenseOrSparsePolynomial::DPolynomial(p);
    let divisor = DenseOrSparsePolynomial::DPolynomial(d);
    let (q, r) = dividend.divide_with_q_and_r(&divisor).unwrap();
    assert!(r.is_zero() || r.degree() < divisor.degree());
    for x in 0..25u64 {
        let xf = Fp::from_u64(x);
        let lhs = {
            let qd = snarkcore::fp::fp_mul(&q.evaluate(&xf), &divisor.evaluate(&xf));
            snarkcore::fp::fp_add(&qd, &r.evaluate(&xf))
        };
        assert_eq!(lhs, dividend.evaluate(&xf));
    }
}

#[test]
fn test_divide_low_degree_returns_dividend() {
    let p = dense_from_u64(&[7, 5]);
    let d = dense_from_u64(&[4, 9, 1]);
    let dividend = DenseOrSparsePolynomial::DPolynomial(p);
    let divisor = DenseOrSparsePolynomial::DPolynomial(d);
    let (q, r) = dividend.divide_with_q_and_r(&divisor).unwrap();
    assert!(q.is_zero());
    assert_eq!(r.coeffs[0], Fp::from_u64(7));
    assert_eq!(r.coeffs[1], Fp::from_u64(5));
}

#[test]
fn test_sparse_round_trip() {
    // a dense polynomial refuses the sparse view; a sparse polynomial
    // converted to dense evaluates identically
    let sparse = SparsePolynomial::from_coefficients(vec![
        (0, Fp::from_u64(3)),
        (2, Fp::from_u64(5)),
        (7, Fp::from_u64(11)),
    ])
    .unwrap();
    let as_union = DenseOrSparsePolynomial::SPolynomial(sparse);
    assert!(as_union.as_sparse().is_some());
    assert!(as_union.as_dense().is_none());
    let dense = as_union.into_dense();
    assert_eq!(dense.degree(), 7);
    for x in 0..40u64 {
        let xf = Fp::from_u64(x);
        assert_eq!(as_union.evaluate(&xf), dense.evaluate(&xf));
    }

    let dense_only = DenseOrSparsePolynomial::DPolynomial(dense_from_u64(&[1, 2, 3]));
    assert!(dense_only.as_sparse().is_none());
}

#[test]
fn test_sparse_divisor() {
    // divide by the vanishing-style sparse polynomial x^4 - 1
    let p = dense_from_u64(&[1, 2, 3, 4, 5, 6]);
    let minus_one = snarkcore::fp::fp_sub(&Fp::zero(), &Fp::one());
    let sparse =
        SparsePolynomial::from_coefficients(vec![(0, minus_one), (4, Fp::one())]).unwrap();
    let dividend = DenseOrSparsePolynomial::DPolynomial(p);
    let divisor = DenseOrSparsePolynomial::SPolynomial(sparse);
    let (q, r) = dividend.divide_with_q_and_r(&divisor).unwrap();
    assert!(r.is_zero() || r.degree() < divisor.degree());
    for x in 1..20u64 {
        let xf = Fp::from_u64(x);
        let qd = snarkcore::fp::fp_mul(&q.evaluate(&xf), &divisor.evaluate(&xf));
        let lhs = snarkcore::fp::fp_add(&qd, &r.evaluate(&xf));
        assert_eq!(lhs, dividend.evaluate(&xf));
    }
}

#[test]
fn test_trailing_zeros_are_trimmed() {
    let mut v: Vec<Fp> = Vec::new();
    v.push(Fp::from_u64(5));
    v.push(Fp::zero());
    v.push(Fp::zero());
    let p = DensePolynomial::from_coefficients_vec(v);
    assert_eq!(p.coeffs.len(), 1);
    assert_eq!(p.degree(), 0);
}

#[test]
fn test_field_element_values() {
    assert_eq!(Fp::from_u64(0), Fp::zero());
    assert_eq!(Fp::from_u64(1), Fp::one());
    let a = Fp::from_u64(1000000007);
    let b = Fp::from_u64(998244353);
    let sum = snarkcore::fp::fp_add(&a, &b);
    assert_eq!(sum, Fp::from_u64(1000000007 + 998244353));
    let product = snarkcore::fp::fp_mul(&a, &b);
    assert_eq!(product, Fp::from_u128(1000000007u128 * 998244353u128));
    let inv = snarkcore::fp::fp_inverse(&a).unwrap();
    assert_eq!(snarkcore::fp::fp_mul(&a, &inv), Fp::one());
    assert!(snarkcore::fp::fp_inverse(&Fp::zero()).is_none());
    let _ = fp_m;
}

#[test]
fn test_evaluate_over_domain_matches_direct_evaluation() {
    // the tabulated value at a domain element's index equals direct
    // evaluation at that element
    let p = dense_from_u64(&[3, 1, 4, 1, 5]);
    let poly = DenseOrSparsePolynomial::DPolynomial(p);
    let domain = snarkcore::domain::EvaluationDomain::new(8).unwrap();
    let evaluations = poly.evaluate_over_domain(domain.clone());
    assert_eq!(evaluations.evaluations.len(), 8);
    let points = domain.elements();
    for (i, x) in points.iter().enumerate() {
        assert_eq!(evaluations.evaluations[i], poly.evaluate(x));
    }
    // the domain generator has the domain's order
    let last = domain.element(8);
    assert_eq!(last, Fp::one());
}

#[test]
fn test_serialize_layout() {
    let p = dense_from_u64(&[9, 0, 7]);
    let poly = DenseOrSparsePolynomial::DPolynomial(p);
    let bytes = poly.serialize();
    assert_eq!(bytes.len(), snarkcore::polynomial::DenseOrSparsePolynomial::serialized_size(&poly));
    assert_eq!(bytes.len(), 8 + 32 * 3);
    // count prefix
    assert_eq!(&bytes[0..8], &[3, 0, 0, 0, 0, 0, 0, 0]);
    // first coefficient, little endian
    assert_eq!(bytes[8], 9);
    assert!(bytes[9..40].iter().all(|&b| b == 0));
    // second coefficient is zero
    assert!(bytes[40..72].iter().all(|&b| b == 0));
    // third coefficient
    assert_eq!(bytes[72], 7);
    assert!(bytes[73..104].iter().all(|&b| b == 0));
}

#[test]
fn test_serialize_round_trip() {
    // encoding then decoding gives back the canonical dense form, for
    // dense and for sparse inputs
    let dense = DenseOrSparsePolynomial::DPolynomial(dense_from_u64(&[9, 0, 7, 1000000007]));
    let bytes = dense.serialize();
    let decoded = DenseOrSparsePolynomial::deserialize(&bytes).unwrap();
    assert_eq!(decoded.coeffs, dense.as_dense().unwrap().coeffs);

    let sparse = SparsePolynomial::from_coefficients(vec![
        (1, Fp::from_u64(5)),
        (6, Fp::from_u64(13)),
    ])
    .unwrap();
    let union = DenseOrSparsePolynomial::SPolynomial(sparse);
    let expanded = union.into_dense();
    let bytes = union.serialize();
    let decoded = DenseOrSparsePolynomial::deserialize(&bytes).unwrap();
    assert_eq!(decoded.coeffs, expanded.coeffs);

    // the sparse encoding equals its dense expansion's encoding
    let again = DenseOrSparsePolynomial::DPolynomial(expanded);
    assert_eq!(bytes, again.serialize());

    let zero = DenseOrSparsePolynomial::DPolynomial(DensePolynomial::zero());
    let bytes = zero.serialize();
    assert_eq!(bytes.len(), 8);
    let decoded = DenseOrSparsePolynomial::deserialize(&bytes).unwrap();
    assert!(decoded.is_zero());
}

#[test]
fn test_deserialize_rejects_malformed_encodings() {
    // too short for its own prefix
    assert!(DenseOrSparsePolynomial::deserialize(&vec![1, 2, 3]).is_none());
    // count prefix promises more chunks than the buffer holds
    let mut bytes = vec![2, 0, 0, 0, 0, 0, 0, 0];
    bytes.extend(std::iter::repeat(0u8).take(32));
    assert!(DenseOrSparsePolynomial::deserialize(&bytes).is_none());
    // a chunk holding a value at or above the prime is refused
    let mut bytes = vec![1, 0, 0, 0, 0, 0, 0, 0];
    bytes.extend(std::iter::repeat(0xffu8).take(32));
    assert!(DenseOrSparsePolynomial::deserialize(&bytes).is_none());
}
