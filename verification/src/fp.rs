//! Native elements of the BLS12-377 scalar field.
//!
//! An element is held as four 64-bit little-endian limbs of its canonical
//! integer representative. All arithmetic is delegated to `snarkvm_fields`;
//! every contract speaks of the integer value of the element modulo the
//! prime below.

use vstd::prelude::*;

use snarkvm_curves::bls12_377::Fr;
use snarkvm_fields::Field;
use snarkvm_fields::PrimeField;
use snarkvm_utilities::biginteger::BigInteger256;

verus! {

/// The prime order of the BLS12-377 scalar field.
pub open spec fn fp_m() -> nat {
    8444461749428370424248824938781546531375899335154063827935233455917409239041nat
}

/// A field element, stored as the four little-endian 64-bit limbs of its
/// canonical (fully reduced) integer value.
#[derive(Clone, Copy, Debug, PartialEq, Eq, Structural)]
pub struct Fp {
    pub w0: u64,
    pub w1: u64,
    pub w2: u64,
    pub w3: u64,
}

impl View for Fp {
    type V = nat;

    open spec fn view(&self) -> nat {
        self.w0 as nat
            + self.w1 as nat * 0x1_0000_0000_0000_0000nat
            + self.w2 as nat * 0x1_0000_0000_0000_0000_0000_0000_0000_0000nat
            + self.w3 as nat
                * 0x1_0000_0000_0000_0000_0000_0000_0000_0000_0000_0000_0000_0000nat
    }
}

impl Fp {
    /// A well-formed element holds its canonical representative.
    pub open spec fn wf(&self) -> bool {
        self@ < fp_m()
    }

    /// The additive identity.
    pub fn zero() -> (r: Fp)
        ensures
            r@ == 0,
            r.wf(),
    {
        Fp { w0: 0, w1: 0, w2: 0, w3: 0 }
    }

    /// The multiplicative identity.
    pub fn one() -> (r: Fp)
        ensures
            r@ == 1,
            r.wf(),
    {
        Fp { w0: 1, w1: 0, w2: 0, w3: 0 }
    }

    /// Embeds a 64-bit integer.
    pub fn from_u64(v: u64) -> (r: Fp)
        ensures
            r@ == v,
            r.wf(),
    {
        Fp { w0: v, w1: 0, w2: 0, w3: 0 }
    }

    /// Embeds a 128-bit integer.
    pub fn from_u128(v: u128) -> (r: Fp)
        ensures
            r@ == v,
            r.wf(),
    {
        let lo = (v % 0x1_0000_0000_0000_0000) as u64;
        let hi = (v / 0x1_0000_0000_0000_0000) as u64;
        proof {
            vstd::arithmetic::div_mod::lemma_fundamental_div_mod(
                v as int,
                0x1_0000_0000_0000_0000,
            );
        }
        Fp { w0: lo, w1: hi, w2: 0, w3: 0 }
    }

    /// Returns whether this is the zero element.
    pub fn is_zero(&self) -> (r: bool)
        ensures
            r <==> self@ == 0,
    {
        self.w0 == 0 && self.w1 == 0 && self.w2 == 0 && self.w3 == 0
    }

    /// Returns whether two elements are equal.
    pub fn eq_value(&self, other: &Fp) -> (r: bool)
        ensures
            r <==> self@ == other@,
    {
        let same = self.w0 == other.w0 && self.w1 == other.w1 && self.w2 == other.w2
            && self.w3 == other.w3;
        proof {
            if self@ == other@ {
                lemma_limb_value_injective(*self, *other);
            }
        }
        same
    }
}

/// Two limb vectors with the same value have the same limbs.
proof fn lemma_limb_value_injective(a: Fp, b: Fp)
    requires
        a@ == b@,
    ensures
        a.w0 == b.w0 && a.w1 == b.w1 && a.w2 == b.w2 && a.w3 == b.w3,
{
    let d: nat = 0x1_0000_0000_0000_0000nat;
    assert(a.w0 == b.w0 && a.w1 == b.w1 && a.w2 == b.w2 && a.w3 == b.w3) by (nonlinear_arith)
        requires
            a@ == b@,
            a@ == a.w0 as nat + a.w1 as nat * d + a.w2 as nat * (d * d) + a.w3 as nat * (d * d
                * d),
            b@ == b.w0 as nat + b.w1 as nat * d + b.w2 as nat * (d * d) + b.w3 as nat * (d * d
                * d),
            d == 0x1_0000_0000_0000_0000nat,
            a.w0 < d && a.w1 < d && a.w2 < d && a.w3 < d,
            b.w0 < d && b.w1 < d && b.w2 < d && b.w3 < d,
    ;
}

/// Relies on `snarkvm_fields::Fp256` addition over the BLS12-377 scalar
/// field: the sum of the canonical representatives, reduced modulo the prime.
#[verifier::external_body]
pub fn fp_add(a: &Fp, b: &Fp) -> (r: Fp)
    requires
        a.wf(),
        b.wf(),
    ensures
        r.wf(),
        r@ == (a@ + b@) % fp_m(),
{
    let x = Fr::from_bigint(BigInteger256([a.w0, a.w1, a.w2, a.w3])).unwrap();
    let y = Fr::from_bigint(BigInteger256([b.w0, b.w1, b.w2, b.w3])).unwrap();
    let s = (x + y).to_bigint().0;
    Fp { w0: s[0], w1: s[1], w2: s[2], w3: s[3] }
}

/// Relies on `snarkvm_fields::Fp256` subtraction over the BLS12-377 scalar
/// field: the difference of the canonical representatives modulo the prime.
#[verifier::external_body]
pub fn fp_sub(a: &Fp, b: &Fp) -> (r: Fp)
    requires
        a.wf(),
        b.wf(),
    ensures
        r.wf(),
        r@ == (a@ - b@) % (fp_m() as int),
{
    let x = Fr::from_bigint(BigInteger256([a.w0, a.w1, a.w2, a.w3])).unwrap();
    let y = Fr::from_bigint(BigInteger256([b.w0, b.w1, b.w2, b.w3])).unwrap();
    let s = (x - y).to_bigint().0;
    Fp { w0: s[0], w1: s[1], w2: s[2], w3: s[3] }
}

/// Relies on `snarkvm_fields::Fp256` multiplication over the BLS12-377
/// scalar field: the product of the canonical representatives modulo the
/// prime.
#[verifier::external_body]
pub fn fp_mul(a: &Fp, b: &Fp) -> (r: Fp)
    requires
        a.wf(),
        b.wf(),
    ensures
        r.wf(),
        r@ == (a@ * b@) % fp_m(),
{
    let x = Fr::from_bigint(BigInteger256([a.w0, a.w1, a.w2, a.w3])).unwrap();
    let y = Fr::from_bigint(BigInteger256([b.w0, b.w1, b.w2, b.w3])).unwrap();
    let s = (x * y).to_bigint().0;
    Fp { w0: s[0], w1: s[1], w2: s[2], w3: s[3] }
}

/// Relies on `snarkvm_fields::Fp256::from_bigint`: `Some` exactly when
/// the four little-endian limbs hold a canonical representative, below
/// the prime; the element then carries exactly that value.
#[verifier::external_body]
pub fn fp_from_limbs(w0: u64, w1: u64, w2: u64, w3: u64) -> (r: Option<Fp>)
    ensures
        r is Some <==> (Fp { w0, w1, w2, w3 })@ < fp_m(),
        r matches Some(v) ==> v.wf() && v == (Fp { w0, w1, w2, w3 }),
{
    Fr::from_bigint(BigInteger256([w0, w1, w2, w3])).map(|_| Fp { w0, w1, w2, w3 })
}

/// Relies on `snarkvm_fields::Fp256::inverse`: `None` exactly on zero, and
/// on a nonzero element the unique multiplicative inverse modulo the prime.
#[verifier::external_body]
pub fn fp_inverse(a: &Fp) -> (r: Option<Fp>)
    requires
        a.wf(),
    ensures
        a@ == 0 <==> r is None,
        r matches Some(v) ==> v.wf() && (v@ * a@) % fp_m() == 1,
{
    let x = Fr::from_bigint(BigInteger256([a.w0, a.w1, a.w2, a.w3])).unwrap();
    x.inverse().map(|i| {
        let s = i.to_bigint().0;
        Fp { w0: s[0], w1: s[1], w2: s[2], w3: s[3] }
    })
}

} // verus!
