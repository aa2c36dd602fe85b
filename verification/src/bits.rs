//! Bit-decomposition traits for plain values, and the byte-to-bit
//! conversions behind them.

use vstd::prelude::*;

use crate::binary::bits_val;
use vstd::arithmetic::power2::pow2;

verus! {

/// The bit of weight `2^j` in a byte.
pub open spec fn nth_bit(b: u8, j: nat) -> bool {
    ((b as nat) / pow2(j)) % 2 == 1
}

/// The little-endian bits of a byte sequence: bit `j` of byte `i` at
/// index `8*i + j`, trailing zeros kept.
pub open spec fn bytes_bits_spec(bytes: Seq<u8>) -> Seq<bool> {
    Seq::new(8 * bytes.len(), |i: int| nth_bit(bytes[i / 8], (i % 8) as nat))
}

/// A value with a little- and big-endian boolean decomposition.
pub trait ToBits {
    /// The little-endian decomposition, as a specification.
    spec fn to_bits_le_spec(&self) -> Seq<bool>;

    /// The value as booleans in little-endian order.
    fn to_bits_le(&self) -> (r: Vec<bool>)
        ensures
            r@ == self.to_bits_le_spec(),
    ;

    /// The value as booleans in big-endian order: the little-endian
    /// decomposition, reversed.
    fn to_bits_be(&self) -> (r: Vec<bool>)
        ensures
            r@ == self.to_bits_le_spec().reverse(),
    ;
}

/// A value readable back from a boolean decomposition.
pub trait FromBits where Self: core::marker::Sized {
    /// Reads the value from booleans in little-endian order.
    fn from_bits_le(bits: &Vec<bool>) -> Self;

    /// Reads the value from booleans in big-endian order.
    fn from_bits_be(bits: &Vec<bool>) -> Self;
}

/// A value with a minimal boolean encoding.
pub trait ToMinimalBits {
    /// The minimal boolean encoding, as a specification.
    spec fn minimal_bits_spec(&self) -> Seq<bool>;

    /// The value as a minimal boolean sequence.
    fn to_minimal_bits(&self) -> (r: Vec<bool>)
        ensures
            r@ == self.minimal_bits_spec(),
    ;
}

/// The concatenation, in order, of each element's minimal bits.
pub open spec fn seq_minimal_bits<T: ToMinimalBits>(s: Seq<T>) -> Seq<bool>
    decreases s.len(),
{
    if s.len() == 0 {
        Seq::empty()
    } else {
        seq_minimal_bits(s.drop_last()) + s.last().minimal_bits_spec()
    }
}

/// The minimal encoding of a concatenation is the concatenation of the
/// minimal encodings; the empty sequence encodes to the empty bits.
pub proof fn lemma_seq_minimal_bits_concat<T: ToMinimalBits>(a: Seq<T>, b: Seq<T>)
    ensures
        seq_minimal_bits(a + b) == seq_minimal_bits(a) + seq_minimal_bits(b),
        seq_minimal_bits(Seq::<T>::empty()) == Seq::<bool>::empty(),
    decreases b.len(),
{
    if b.len() == 0 {
        assert(a + b =~= a);
        assert(seq_minimal_bits(a) + seq_minimal_bits(b) =~= seq_minimal_bits(a));
    } else {
        lemma_seq_minimal_bits_concat(a, b.drop_last());
        assert((a + b).drop_last() =~= a + b.drop_last());
        assert((a + b).last() == b.last());
        assert(seq_minimal_bits(a) + seq_minimal_bits(b.drop_last())
            + b.last().minimal_bits_spec() =~= seq_minimal_bits(a) + (seq_minimal_bits(
            b.drop_last(),
        ) + b.last().minimal_bits_spec()));
    }
}

impl<T: ToMinimalBits> ToMinimalBits for Vec<T> {
    /// The concatenation of the elements' minimal bits.
    open spec fn minimal_bits_spec(&self) -> Seq<bool> {
        seq_minimal_bits(self@)
    }

    /// The concatenation of each element's minimal bits, in order.
    fn to_minimal_bits(&self) -> (r: Vec<bool>)
        ensures
            r@ == self.minimal_bits_spec(),
    {
        let mut res_bits: Vec<bool> = Vec::new();
        let mut i: usize = 0;
        proof {
            assert(self@.take(0) =~= Seq::<T>::empty());
            assert(res_bits@ =~= seq_minimal_bits(self@.take(0)));
        }
        while i < self.len()
            invariant
                i <= self@.len(),
                res_bits@ == seq_minimal_bits(self@.take(i as int)),
            decreases self@.len() - i,
        {
            let elem_bits = self[i].to_minimal_bits();
            let ghost base = res_bits@;
            let mut j: usize = 0;
            while j < elem_bits.len()
                invariant
                    j <= elem_bits@.len(),
                    res_bits@ == base + elem_bits@.take(j as int),
                decreases elem_bits@.len() - j,
            {
                res_bits.push(elem_bits[j]);
                proof {
                    assert(res_bits@ =~= base + elem_bits@.take(j + 1));
                }
                j = j + 1;
            }
            proof {
                assert(elem_bits@.take(elem_bits@.len() as int) =~= elem_bits@);
                assert(self@.take(i + 1).drop_last() =~= self@.take(i as int));
                assert(self@.take(i + 1).last() == self@[i as int]);
                assert(res_bits@ =~= seq_minimal_bits(self@.take(i + 1)));
            }
            i = i + 1;
        }
        proof {
            assert(self@.take(self@.len() as int) =~= self@);
        }
        res_bits
    }
}

/// The eight little-endian bits of a byte.
pub fn u8_bits_le(b: u8) -> (r: Vec<bool>)
    ensures
        r@.len() == 8,
        bits_val(r@) == b,
        forall|j: int| 0 <= j < 8 ==> r@[j] == nth_bit(b, j as nat),
{
    let mut bits: Vec<bool> = Vec::new();
    let mut x = b;
    let mut i: usize = 0;
    proof {
        vstd::arithmetic::power2::lemma2_to64();
        assert(bits_val(Seq::<bool>::empty()) == 0);
    }
    while i < 8
        invariant
            i <= 8,
            bits@.len() == i,
            bits_val(bits@) + x * pow2(i as nat) == b,
            x == (b as nat) / pow2(i as nat),
            forall|j: int| 0 <= j < i ==> bits@[j] == nth_bit(b, j as nat),
        decreases 8 - i,
    {
        let bit_set = x % 2 == 1;
        let ghost prev = bits@;
        let ghost xg = x as nat;
        bits.push(bit_set);
        x = x / 2;
        proof {
            crate::binary::lemma_bits_val_push(prev, bit_set);
            vstd::arithmetic::div_mod::lemma_fundamental_div_mod(xg as int, 2);
            assert(pow2((i + 1) as nat) == 2 * pow2(i as nat)) by {
                vstd::arithmetic::power2::lemma_pow2_adds(1, i as nat);
                vstd::arithmetic::power2::lemma2_to64();
            }
            assert((2 * (xg / 2) + (xg % 2)) * pow2(i as nat) == (xg / 2) * (2 * pow2(
                i as nat,
            )) + (xg % 2) * pow2(i as nat)) by (nonlinear_arith);
            vstd::arithmetic::power2::lemma_pow2_pos(i as nat);
            vstd::arithmetic::div_mod::lemma_div_denominator(
                b as int,
                pow2(i as nat) as int,
                2,
            );
        }
        i = i + 1;
    }
    proof {
        if x > 0 {
            assert(x * pow2(8) >= pow2(8)) by (nonlinear_arith)
                requires
                    x >= 1,
            ;
            vstd::arithmetic::power2::lemma2_to64();
        }
        vstd::arithmetic::power2::lemma2_to64();
    }
    bits
}

/// The little-endian bits of a byte vector: eight bits per byte, each
/// byte's group in order.
pub fn bytes_to_bits_le(bytes: &Vec<u8>) -> (r: Vec<bool>)
    ensures
        r@.len() == 8 * bytes@.len(),
        forall|k: int|
            0 <= k < bytes@.len() ==> bits_val(#[trigger] r@.subrange(8 * k, 8 * k + 8))
                == bytes@[k],
        r@ == bytes_bits_spec(bytes@),
{
    let mut bits: Vec<bool> = Vec::new();
    let n = bytes.len();
    let mut i: usize = 0;
    while i < n
        invariant
            i <= n,
            n == bytes@.len(),
            bits@.len() == 8 * i,
            forall|k: int|
                0 <= k < i ==> bits_val(#[trigger] bits@.subrange(8 * k, 8 * k + 8))
                    == bytes@[k],
            forall|t: int|
                0 <= t < bits@.len() ==> #[trigger] bits@[t] == nth_bit(
                    bytes@[t / 8],
                    (t % 8) as nat,
                ),
        decreases n - i,
    {
        let ghost prev = bits@;
        let byte_bits = u8_bits_le(bytes[i]);
        let mut j: usize = 0;
        while j < 8
            invariant
                j <= 8,
                byte_bits@.len() == 8,
                bits@ == prev + byte_bits@.take(j as int),
            decreases 8 - j,
        {
            bits.push(byte_bits[j]);
            proof {
                assert(bits@ =~= prev + byte_bits@.take(j + 1));
            }
            j = j + 1;
        }
        proof {
            assert(byte_bits@.take(8) =~= byte_bits@);
            assert(bits@.subrange(8 * i as int, 8 * i as int + 8) =~= byte_bits@);
            assert forall|k: int|
                0 <= k < i + 1 implies bits_val(
                #[trigger] bits@.subrange(8 * k, 8 * k + 8),
            ) == bytes@[k] by {
                if k < i {
                    assert(bits@.subrange(8 * k, 8 * k + 8) =~= prev.subrange(
                        8 * k,
                        8 * k + 8,
                    ));
                }
            }
            assert forall|t: int|
                0 <= t < bits@.len() implies #[trigger] bits@[t] == nth_bit(
                bytes@[t / 8],
                (t % 8) as nat,
            ) by {
                if t >= 8 * i {
                    vstd::arithmetic::div_mod::lemma_fundamental_div_mod_converse(
                        t,
                        8,
                        i as int,
                        t - 8 * i,
                    );
                    assert(bits@[t] == byte_bits@[t - 8 * i]);
                }
            }
        }
        i = i + 1;
    }
    proof {
        assert(bits@ =~= bytes_bits_spec(bytes@));
    }
    bits
}

/// The sequence reversed.
pub fn reverse_bits(bits: &Vec<bool>) -> (r: Vec<bool>)
    ensures
        r@.len() == bits@.len(),
        forall|i: int| 0 <= i < r@.len() ==> r@[i] == bits@[bits@.len() - 1 - i],
{
    let n = bits.len();
    let mut out: Vec<bool> = Vec::new();
    let mut i: usize = 0;
    while i < n
        invariant
            i <= n,
            n == bits@.len(),
            out@.len() == i,
            forall|t: int| 0 <= t < i ==> out@[t] == bits@[n - 1 - t],
        decreases n - i,
    {
        out.push(bits[n - 1 - i]);
        i = i + 1;
    }
    out
}

impl ToBits for Vec<u8> {
    /// The little-endian bits of the bytes, as a specification.
    open spec fn to_bits_le_spec(&self) -> Seq<bool> {
        bytes_bits_spec(self@)
    }

    /// The bytes as booleans in little-endian order, trailing zeros
    /// kept.
    fn to_bits_le(&self) -> (r: Vec<bool>)
        ensures
            r@ == self.to_bits_le_spec(),
    {
        bytes_to_bits_le(self)
    }

    /// The bytes as booleans in big-endian order, leading zeros kept.
    fn to_bits_be(&self) -> (r: Vec<bool>)
        ensures
            r@ == self.to_bits_le_spec().reverse(),
    {
        let le = bytes_to_bits_le(self);
        let r = reverse_bits(&le)
        ;
        proof {
            assert(r@ =~= bytes_bits_spec(self@).reverse());
        }
        r
    }
}

} // verus!
