//! The wire encoding of polynomials: a little-endian count of
//! coefficients followed by each coefficient's 32-byte little-endian
//! field encoding. A sparse polynomial is canonicalized to dense form
//! before encoding, trading space for a uniform format.

use vstd::prelude::*;

use crate::fp::{fp_m, Fp};
use crate::polynomial::{DenseOrSparsePolynomial, DensePolynomial};
use vstd::arithmetic::power2::pow2;

verus! {

/// The value of a little-endian byte sequence.
pub open spec fn le_bytes_val(s: Seq<u8>) -> nat
    decreases s.len(),
{
    if s.len() == 0 {
        0
    } else {
        (s[0] as nat) + 256 * le_bytes_val(s.subrange(1, s.len() as int))
    }
}

/// Appending a byte adds its weighted value.
pub proof fn lemma_le_bytes_val_push(s: Seq<u8>, b: u8)
    ensures
        le_bytes_val(s.push(b)) == le_bytes_val(s) + b * pow2(8 * s.len()),
    decreases s.len(),
{
    if s.len() == 0 {
        assert(s.push(b).subrange(1, 1) =~= Seq::<u8>::empty());
        assert(le_bytes_val(Seq::<u8>::empty()) == 0);
        assert(le_bytes_val(s.push(b)) == b + 256 * le_bytes_val(Seq::<u8>::empty()));
        vstd::arithmetic::power2::lemma2_to64();
    } else {
        let t = s.subrange(1, s.len() as int);
        assert(s.push(b).subrange(1, (s.len() + 1) as int) =~= t.push(b));
        assert(le_bytes_val(s.push(b)) == s[0] + 256 * le_bytes_val(t.push(b)));
        assert(le_bytes_val(s) == s[0] + 256 * le_bytes_val(t));
        lemma_le_bytes_val_push(t, b);
        assert(pow2(8 * s.len()) == 256 * pow2(8 * t.len())) by {
            vstd::arithmetic::power2::lemma_pow2_adds(8, 8 * t.len());
            vstd::arithmetic::power2::lemma2_to64();
        }
        assert(256 * (le_bytes_val(t) + b * pow2(8 * t.len())) == 256 * le_bytes_val(t) + b * (
        256 * pow2(8 * t.len()))) by (nonlinear_arith);
    }
}

/// The eight little-endian bytes of a 64-bit word.
pub fn u64_to_bytes_le(w: u64) -> (r: Vec<u8>)
    ensures
        r@.len() == 8,
        le_bytes_val(r@) == w,
{
    let mut out: Vec<u8> = Vec::new();
    let mut x = w;
    let mut i: usize = 0;
    proof {
        vstd::arithmetic::power2::lemma2_to64();
        assert(le_bytes_val(Seq::<u8>::empty()) == 0);
        assert(out@ =~= Seq::<u8>::empty());
        assert(pow2(0) == 1);
        assert(le_bytes_val(out@) == 0);
        assert((w as nat) * pow2(8 * (0nat)) == w) by (nonlinear_arith)
            requires
                pow2(8 * (0nat)) == 1,
        ;
    }
    while i < 8
        invariant
            i <= 8,
            out@.len() == i,
            le_bytes_val(out@) + x * pow2(8 * i as nat) == w,
        decreases 8 - i,
    {
        let b = (x % 256) as u8;
        let ghost prev = out@;
        let ghost xg = x as nat;
        out.push(b);
        x = x / 256;
        proof {
            lemma_le_bytes_val_push(prev, b);
            vstd::arithmetic::div_mod::lemma_fundamental_div_mod(xg as int, 256);
            assert(pow2(8 * (i + 1) as nat) == 256 * pow2(8 * i as nat)) by {
                vstd::arithmetic::power2::lemma_pow2_adds(8, 8 * i as nat);
                vstd::arithmetic::power2::lemma2_to64();
            }
            assert((256 * (xg / 256) + (xg % 256)) * pow2(8 * i as nat) == (xg / 256) * (256
                * pow2(8 * i as nat)) + (xg % 256) * pow2(8 * i as nat)) by (nonlinear_arith);
        }
        i = i + 1;
    }
    proof {
        if x > 0 {
            assert(x * pow2(64) >= pow2(64)) by (nonlinear_arith)
                requires
                    x >= 1,
            ;
            vstd::arithmetic::power2::lemma2_to64();
        }
        vstd::arithmetic::power2::lemma2_to64();
    }
    out
}

/// The 32 little-endian bytes of a field element's canonical value.
pub fn fp_to_bytes_le(v: &Fp) -> (r: Vec<u8>)
    ensures
        r@.len() == 32,
        le_bytes_val(r@) == v@,
{
    let b0 = u64_to_bytes_le(v.w0);
    let b1 = u64_to_bytes_le(v.w1);
    let b2 = u64_to_bytes_le(v.w2);
    let b3 = u64_to_bytes_le(v.w3);
    let mut out = b0;
    let ghost s0 = out@;
    let out = append_bytes(out, &b1);
    let out = append_bytes(out, &b2);
    let out = append_bytes(out, &b3);
    proof {
        lemma_le_bytes_val_concat(s0, b1@);
        lemma_le_bytes_val_concat(s0 + b1@, b2@);
        lemma_le_bytes_val_concat((s0 + b1@) + b2@, b3@);
        assert(out@ =~= ((s0 + b1@) + b2@) + b3@);
        vstd::arithmetic::power2::lemma2_to64();
        vstd::arithmetic::power2::lemma_pow2_adds(64, 64);
        vstd::arithmetic::power2::lemma_pow2_adds(128, 64);
        assert(pow2(64) * (v.w1 as nat) == (v.w1 as nat) * pow2(64)) by (nonlinear_arith);
        assert(pow2(128) * (v.w2 as nat) == (v.w2 as nat) * pow2(128)) by (nonlinear_arith);
        assert(pow2(192) * (v.w3 as nat) == (v.w3 as nat) * pow2(192)) by (nonlinear_arith);
        assert(pow2(128) == 0x1_0000_0000_0000_0000_0000_0000_0000_0000nat) by {
            crate::binary::lemma_pow2_large();
        }
        assert(pow2(192)
            == 0x1_0000_0000_0000_0000_0000_0000_0000_0000_0000_0000_0000_0000nat) by {
            vstd::arithmetic::power2::lemma_pow2_adds(128, 64);
            crate::binary::lemma_pow2_large();
        }
    }
    out
}

/// Concatenating byte sequences composes their values.
pub proof fn lemma_le_bytes_val_concat(s1: Seq<u8>, s2: Seq<u8>)
    ensures
        le_bytes_val(s1 + s2) == le_bytes_val(s1) + pow2(8 * s1.len()) * le_bytes_val(s2),
    decreases s2.len(),
{
    if s2.len() == 0 {
        assert(s1 + s2 =~= s1);
        assert(le_bytes_val(Seq::<u8>::empty()) == 0);
        assert(pow2(8 * s1.len()) * 0 == 0) by (nonlinear_arith);
    } else {
        let front = s2.drop_last();
        lemma_le_bytes_val_concat(s1, front);
        assert(s1 + s2 =~= (s1 + front).push(s2.last()));
        assert(s2 =~= front.push(s2.last()));
        lemma_le_bytes_val_push(s1 + front, s2.last());
        lemma_le_bytes_val_push(front, s2.last());
        vstd::arithmetic::power2::lemma_pow2_adds(8 * s1.len(), 8 * front.len());
        assert(pow2(8 * s1.len()) * (le_bytes_val(front) + s2.last() * pow2(8 * front.len()))
            == pow2(8 * s1.len()) * le_bytes_val(front) + s2.last() * (pow2(8 * s1.len())
            * pow2(8 * front.len()))) by (nonlinear_arith);
    }
}

/// A byte sequence's value is below two to eight times its length.
pub proof fn lemma_le_bytes_val_bound(s: Seq<u8>)
    ensures
        le_bytes_val(s) < pow2(8 * s.len()),
    decreases s.len(),
{
    if s.len() == 0 {
        vstd::arithmetic::power2::lemma2_to64();
    } else {
        let t = s.subrange(1, s.len() as int);
        lemma_le_bytes_val_bound(t);
        assert(pow2(8 * s.len()) == 256 * pow2(8 * t.len())) by {
            vstd::arithmetic::power2::lemma_pow2_adds(8, 8 * t.len());
            vstd::arithmetic::power2::lemma2_to64();
        }
    }
}

/// Reads a little-endian 64-bit word from eight bytes of the buffer.
fn read_u64_le(bytes: &Vec<u8>, at: usize) -> (r: u64)
    requires
        at + 8 <= bytes@.len(),
    ensures
        r == le_bytes_val(bytes@.subrange(at as int, at + 8)),
{
    let n = bytes.len();
    let mut acc: u64 = 0;
    let mut i: usize = 8;
    proof {
        assert(bytes@.subrange(at + 8, at + 8) =~= Seq::<u8>::empty());
        vstd::arithmetic::power2::lemma2_to64();
    }
    while i > 0
        invariant
            i <= 8,
            n == bytes@.len(),
            at + 8 <= n,
            acc == le_bytes_val(bytes@.subrange(at + i, at + 8)),
            acc < pow2((8 * (8 - i)) as nat),
        decreases i,
    {
        i = i - 1;
        let b = bytes[at + i];
        proof {
            let whole = bytes@.subrange(at + i, at + 8);
            let tail = bytes@.subrange(at + i + 1, at + 8);
            assert(whole.subrange(1, whole.len() as int) =~= tail);
            assert(whole[0] == bytes@[at + i]);
            assert(le_bytes_val(whole) == bytes@[at + i] + 256 * le_bytes_val(tail));
            lemma_le_bytes_val_bound(whole);
            assert(pow2((8 * (8 - i)) as nat) == 256 * pow2((8 * (7 - i)) as nat)) by {
                vstd::arithmetic::power2::lemma_pow2_adds(8, (8 * (7 - i)) as nat);
                vstd::arithmetic::power2::lemma2_to64();
            }
            vstd::arithmetic::power2::lemma2_to64();
            let gap: nat = (8 * (7 - i)) as nat;
            if gap < 56 {
                vstd::arithmetic::power2::lemma_pow2_strictly_increases(gap, 56);
            }
            vstd::arithmetic::power2::lemma2_to64_rest();
            assert(acc < pow2(56));
            assert((acc as int) * 256 + 255 <= u64::MAX as int);
        }
        acc = acc * 256 + (b as u64);
    }
    acc
}

/// Reads a canonical field element from 32 bytes of the buffer; fails
/// exactly when the value is not below the prime.
fn read_fp_le(bytes: &Vec<u8>, at: usize) -> (r: Option<Fp>)
    requires
        at + 32 <= bytes@.len(),
        bytes@.len() <= usize::MAX,
    ensures
        r is Some <==> le_bytes_val(bytes@.subrange(at as int, at + 32)) < fp_m(),
        r matches Some(v) ==> v.wf() && v@ == le_bytes_val(bytes@.subrange(at as int, at + 32)),
{
    let w0 = read_u64_le(bytes, at);
    let w1 = read_u64_le(bytes, at + 8);
    let w2 = read_u64_le(bytes, at + 16);
    let w3 = read_u64_le(bytes, at + 24);
    proof {
        let chunk = bytes@.subrange(at as int, at + 32);
        let s0 = bytes@.subrange(at as int, at + 8);
        let s1 = bytes@.subrange(at + 8, at + 16);
        let s2 = bytes@.subrange(at + 16, at + 24);
        let s3 = bytes@.subrange(at + 24, at + 32);
        assert(chunk =~= ((s0 + s1) + s2) + s3);
        lemma_le_bytes_val_concat(s0, s1);
        lemma_le_bytes_val_concat(s0 + s1, s2);
        lemma_le_bytes_val_concat((s0 + s1) + s2, s3);
        vstd::arithmetic::power2::lemma2_to64();
        vstd::arithmetic::power2::lemma_pow2_adds(64, 64);
        vstd::arithmetic::power2::lemma_pow2_adds(128, 64);
        assert(pow2(64) * (w1 as nat) == (w1 as nat) * pow2(64)) by (nonlinear_arith);
        assert(pow2(128) * (w2 as nat) == (w2 as nat) * pow2(128)) by (nonlinear_arith);
        assert(pow2(192) * (w3 as nat) == (w3 as nat) * pow2(192)) by (nonlinear_arith);
        assert(pow2(128) == 0x1_0000_0000_0000_0000_0000_0000_0000_0000nat) by {
            crate::binary::lemma_pow2_large();
        }
        assert(pow2(192)
            == 0x1_0000_0000_0000_0000_0000_0000_0000_0000_0000_0000_0000_0000nat) by {
            vstd::arithmetic::power2::lemma_pow2_adds(128, 64);
            crate::binary::lemma_pow2_large();
        }
    }
    crate::fp::fp_from_limbs(w0, w1, w2, w3)
}

/// Appends the bytes of `src` to `dst`.
fn append_bytes(dst: Vec<u8>, src: &Vec<u8>) -> (r: Vec<u8>)
    ensures
        r@ == dst@ + src@,
{
    let mut out = dst;
    let n = src.len();
    let mut i: usize = 0;
    proof {
        assert(out@ =~= out@ + src@.take(0));
    }
    let ghost base = out@;
    while i < n
        invariant
            i <= n,
            n == src@.len(),
            out@ == base + src@.take(i as int),
        decreases n - i,
    {
        out.push(src[i]);
        proof {
            assert(out@ =~= base + src@.take(i + 1));
        }
        i = i + 1;
    }
    proof {
        assert(src@.take(n as int) =~= src@);
    }
    out
}

impl DenseOrSparsePolynomial {
    /// Encodes the polynomial: the dense coefficient count as eight
    /// little-endian bytes, then each coefficient as 32 little-endian
    /// bytes in degree order. A sparse polynomial is first expanded to
    /// dense form.
    pub fn serialize(&self) -> (r: Vec<u8>)
        requires
            self.wf(),
            8 + 32 * self.dense_len() <= usize::MAX,
        ensures
            r@.len() == 8 + 32 * self.dense_len(),
            le_bytes_val(r@.subrange(0, 8)) == self.dense_len(),
            forall|k: int|
                0 <= k < self.dense_len() ==> le_bytes_val(
                    #[trigger] r@.subrange(8 + 32 * k, 8 + 32 * k + 32),
                ) == self.dense_view()[k],
    {
        let dense = self.into_dense();
        proof {
            lemma_dense_len(self, &dense);
        }
        let n = dense.coeffs.len();
        let mut out = u64_to_bytes_le(n as u64);
        let mut i: usize = 0;
        proof {
            assert(out@.subrange(0, 8) =~= out@);
        }
        while i < n
            invariant
                i <= n,
                n == dense.coeffs@.len(),
                8 + 32 * n <= usize::MAX,
                dense.wf(),
                dense@ == crate::polynomial::fpseq(dense.coeffs@),
                out@.len() == 8 + 32 * i,
                le_bytes_val(out@.subrange(0, 8)) == n,
                forall|k: int|
                    0 <= k < i ==> le_bytes_val(
                        #[trigger] out@.subrange(8 + 32 * k, 8 + 32 * k + 32),
                    ) == dense@[k],
            decreases n - i,
        {
            proof {
                assert(dense.coeffs@[i as int].wf());
            }
            let ghost prev = out@;
            let chunk = fp_to_bytes_le(&dense.coeffs[i]);
            let out2 = append_bytes(out, &chunk);
            proof {
                assert(out2@.subrange(0, 8) =~= prev.subrange(0, 8));
                assert(out2@.subrange(8 + 32 * i as int, 8 + 32 * i as int + 32) =~= chunk@);
                assert forall|k: int|
                    0 <= k < i + 1 implies le_bytes_val(
                    #[trigger] out2@.subrange(8 + 32 * k, 8 + 32 * k + 32),
                ) == dense@[k] by {
                    if k < i {
                        assert(out2@.subrange(8 + 32 * k, 8 + 32 * k + 32) =~= prev.subrange(
                            8 + 32 * k,
                            8 + 32 * k + 32,
                        ));
                    }
                }
            }
            out = out2;
            i = i + 1;
        }
        out
    }

    /// The number of bytes `serialize` produces.
    pub fn serialized_size(&self) -> (r: usize)
        requires
            self.wf(),
            8 + 32 * self.dense_len() <= usize::MAX,
        ensures
            r == 8 + 32 * self.dense_len(),
    {
        let dense = self.into_dense();
        proof {
            lemma_dense_len(self, &dense);
        }
        8 + 32 * dense.coeffs.len()
    }

    /// The length of the dense coefficient form.
    pub open spec fn dense_len(&self) -> nat {
        match self {
            DenseOrSparsePolynomial::DPolynomial(p) => p@.len(),
            DenseOrSparsePolynomial::SPolynomial(p) => if p@.len() == 0 {
                0
            } else {
                p.degree_spec() + 1
            },
        }
    }

}

/// The dense form of a polynomial has exactly the dense length.
proof fn lemma_dense_len(p: &DenseOrSparsePolynomial, d: &crate::polynomial::DensePolynomial)
    requires
        d@.len() == 0 <==> p.is_zero_spec(),
        d.degree_spec() == p.degree_spec(),
        p matches DenseOrSparsePolynomial::DPolynomial(q) ==> d@ == q@,
    ensures
        d@.len() == p.dense_len(),
{
}

impl DenseOrSparsePolynomial {
    /// The values of the coefficient chunks of an encoded polynomial.
    pub open spec fn chunk_values(bytes: Seq<u8>) -> Seq<nat> {
        Seq::new(
            le_bytes_val(bytes.subrange(0, 8)),
            |k: int| le_bytes_val(bytes.subrange(8 + 32 * k, 8 + 32 * k + 32)),
        )
    }

    /// Decodes a dense polynomial from the wire format: succeeds exactly
    /// when the buffer is the count prefix followed by that many 32-byte
    /// chunks, each holding a canonical field value; the result carries
    /// the chunk values, trimmed into canonical form.
    pub fn deserialize(bytes: &Vec<u8>) -> (r: Option<DensePolynomial>)
        ensures
            r is Some <==> {
                &&& bytes@.len() >= 8
                &&& bytes@.len() == 8 + 32 * le_bytes_val(bytes@.subrange(0, 8))
                &&& forall|k: int|
                    0 <= k < le_bytes_val(bytes@.subrange(0, 8)) ==> le_bytes_val(
                        #[trigger] bytes@.subrange(8 + 32 * k, 8 + 32 * k + 32),
                    ) < fp_m()
            },
            r matches Some(p) ==> {
                &&& p.wf()
                &&& p@ == Self::chunk_values(bytes@).take(p@.len() as int)
                &&& forall|x: nat|
                    #[trigger] crate::polynomial::pe(p@, x) == crate::polynomial::pe(
                        Self::chunk_values(bytes@),
                        x,
                    )
            },
    {
        if bytes.len() < 8 {
            return None;
        }
        let count = read_u64_le(bytes, 0);
        proof {
            lemma_le_bytes_val_bound(bytes@.subrange(0, 8));
        }
        let n = bytes.len();
        if count > ((usize::MAX - 8) / 32) as u64 {
            proof {
                vstd::arithmetic::div_mod::lemma_fundamental_div_mod(
                    usize::MAX as int - 8,
                    32,
                );
                assert(8 + 32 * (count as int) > usize::MAX);
            }
            return None;
        }
        let count = count as usize;
        if bytes.len() != 8 + 32 * count {
            return None;
        }
        let mut coeffs: Vec<Fp> = Vec::new();
        let mut k: usize = 0;
        while k < count
            invariant
                k <= count,
                n == bytes@.len(),
                bytes@.len() == 8 + 32 * count,
                count == le_bytes_val(bytes@.subrange(0, 8)),
                coeffs@.len() == k,
                crate::polynomial::fpseq_wf(coeffs@),
                forall|t: int|
                    0 <= t < k ==> crate::polynomial::fpseq(coeffs@)[t] == le_bytes_val(
                        #[trigger] bytes@.subrange(8 + 32 * t, 8 + 32 * t + 32),
                    ),
            decreases count - k,
        {
            match read_fp_le(bytes, 8 + 32 * k) {
                None => {
                    return None;
                },
                Some(c) => {
                    coeffs.push(c);
                },
            }
            k = k + 1;
        }
        proof {
            assert(crate::polynomial::fpseq(coeffs@) =~= Self::chunk_values(bytes@));
            assert forall|t: int|
                0 <= t < count implies le_bytes_val(
                #[trigger] bytes@.subrange(8 + 32 * t, 8 + 32 * t + 32),
            ) < fp_m() by {
                assert(coeffs@[t].wf());
            }
        }
        Some(crate::polynomial::DensePolynomial::from_coefficients_vec(coeffs))
    }
}

} // verus!
