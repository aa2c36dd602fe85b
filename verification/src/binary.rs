//! Little-endian binary values: the bridge between field elements,
//! fixed-width integers and their bit decompositions.

use vstd::prelude::*;

use crate::fp::Fp;
use vstd::arithmetic::power2::pow2;

verus! {

/// The value of a little-endian bit sequence:
/// `s[0] + 2*s[1] + 4*s[2] + ...`.
pub open spec fn bits_val(s: Seq<bool>) -> nat
    decreases s.len(),
{
    if s.len() == 0 {
        0
    } else {
        (if s[0] {
            1nat
        } else {
            0nat
        }) + 2 * bits_val(s.subrange(1, s.len() as int))
    }
}

/// The bit value of a boolean.
pub open spec fn bit(b: bool) -> nat {
    if b {
        1
    } else {
        0
    }
}

/// Appending a bit adds its weighted value.
pub proof fn lemma_bits_val_push(s: Seq<bool>, b: bool)
    ensures
        bits_val(s.push(b)) == bits_val(s) + bit(b) * pow2(s.len()),
    decreases s.len(),
{
    if s.len() == 0 {
        assert(s.push(b).subrange(1, 1) =~= Seq::<bool>::empty());
        assert(bits_val(Seq::<bool>::empty()) == 0);
        assert(bits_val(s.push(b)) == bit(b) + 2 * bits_val(Seq::<bool>::empty()));
        vstd::arithmetic::power2::lemma2_to64();
    } else {
        let t = s.subrange(1, s.len() as int);
        assert(s.push(b).subrange(1, (s.len() + 1) as int) =~= t.push(b));
        assert(bits_val(s.push(b)) == bit(s[0]) + 2 * bits_val(t.push(b)));
        assert(bits_val(s) == bit(s[0]) + 2 * bits_val(t));
        lemma_bits_val_push(t, b);
        assert(pow2(s.len()) == 2 * pow2(t.len())) by {
            vstd::arithmetic::power2::lemma_pow2_adds(1, t.len());
            vstd::arithmetic::power2::lemma2_to64();
        }
        assert(2 * (bits_val(t) + bit(b) * pow2(t.len())) == 2 * bits_val(t) + bit(b) * (2
            * pow2(t.len()))) by (nonlinear_arith);
    }
}

/// Taking one more bit adds its weighted value.
pub proof fn lemma_bits_val_take_step(s: Seq<bool>, j: int)
    requires
        0 <= j < s.len(),
    ensures
        bits_val(s.take(j + 1)) == bits_val(s.take(j)) + bit(s[j]) * pow2(j as nat),
{
    assert(s.take(j + 1) =~= s.take(j).push(s[j]));
    lemma_bits_val_push(s.take(j), s[j]);
}

/// A bit sequence's value is below two to its length.
pub proof fn lemma_bits_val_bound(s: Seq<bool>)
    ensures
        bits_val(s) < pow2(s.len()),
    decreases s.len(),
{
    if s.len() == 0 {
        vstd::arithmetic::power2::lemma2_to64();
    } else {
        let t = s.subrange(1, s.len() as int);
        lemma_bits_val_bound(t);
        assert(pow2(s.len()) == 2 * pow2(t.len())) by {
            vstd::arithmetic::power2::lemma_pow2_adds(1, t.len());
            vstd::arithmetic::power2::lemma2_to64();
        }
    }
}

/// Concatenating bit sequences composes their values.
pub proof fn lemma_bits_val_concat(s1: Seq<bool>, s2: Seq<bool>)
    ensures
        bits_val(s1 + s2) == bits_val(s1) + pow2(s1.len()) * bits_val(s2),
    decreases s2.len(),
{
    if s2.len() == 0 {
        assert(s1 + s2 =~= s1);
        assert(bits_val(Seq::<bool>::empty()) == 0);
        assert(pow2(s1.len()) * 0 == 0) by (nonlinear_arith);
    } else {
        let front = s2.drop_last();
        lemma_bits_val_concat(s1, front);
        assert(s1 + s2 =~= (s1 + front).push(s2.last()));
        assert(s2 =~= front.push(s2.last()));
        lemma_bits_val_push(s1 + front, s2.last());
        lemma_bits_val_push(front, s2.last());
        vstd::arithmetic::power2::lemma_pow2_adds(s1.len(), front.len());
        assert(pow2(s1.len()) * (bits_val(front) + bit(s2.last()) * pow2(front.len())) == pow2(
            s1.len(),
        ) * bits_val(front) + bit(s2.last()) * (pow2(s1.len()) * pow2(front.len())))
            by (nonlinear_arith);
    }
}

/// A prefix of a bit sequence holds the value reduced modulo the prefix
/// weight.
pub proof fn lemma_bits_val_take_is_mod(s: Seq<bool>, i: int)
    requires
        0 <= i <= s.len(),
    ensures
        bits_val(s.take(i)) == bits_val(s) % pow2(i as nat),
{
    let front = s.take(i);
    let back = s.skip(i);
    assert(s =~= front + back);
    lemma_bits_val_concat(front, back);
    lemma_bits_val_bound(front);
    vstd::arithmetic::power2::lemma_pow2_pos(i as nat);
    assert(pow2(i as nat) * bits_val(back) == bits_val(back) * pow2(i as nat))
        by (nonlinear_arith);
    vstd::arithmetic::div_mod::lemma_fundamental_div_mod_converse(
        bits_val(s) as int,
        pow2(i as nat) as int,
        bits_val(back) as int,
        bits_val(front) as int,
    );
}

/// A suffix of a bit sequence holds the value divided by the prefix
/// weight.
pub proof fn lemma_bits_val_skip_is_div(s: Seq<bool>, i: int)
    requires
        0 <= i <= s.len(),
    ensures
        bits_val(s.skip(i)) == bits_val(s) / pow2(i as nat),
{
    let front = s.take(i);
    let back = s.skip(i);
    assert(s =~= front + back);
    lemma_bits_val_concat(front, back);
    lemma_bits_val_bound(front);
    vstd::arithmetic::power2::lemma_pow2_pos(i as nat);
    assert(pow2(i as nat) * bits_val(back) == bits_val(back) * pow2(i as nat))
        by (nonlinear_arith);
    vstd::arithmetic::div_mod::lemma_fundamental_div_mod_converse(
        bits_val(s) as int,
        pow2(i as nat) as int,
        bits_val(back) as int,
        bits_val(front) as int,
    );
}

/// The little-endian bits of a 64-bit word.
pub fn u64_bits_le(w: u64) -> (r: Vec<bool>)
    ensures
        r@.len() == 64,
        bits_val(r@) == w,
{
    let mut bits: Vec<bool> = Vec::new();
    let mut x = w;
    let mut i: usize = 0;
    proof {
        vstd::arithmetic::power2::lemma2_to64();
        assert(bits_val(Seq::<bool>::empty()) == 0);
    }
    while i < 64
        invariant
            i <= 64,
            bits@.len() == i,
            bits_val(bits@) + x * pow2(i as nat) == w,
        decreases 64 - i,
    {
        let b = x % 2 == 1;
        let ghost prev = bits@;
        let ghost xg = x as nat;
        bits.push(b);
        x = x / 2;
        proof {
            lemma_bits_val_push(prev, b);
            vstd::arithmetic::div_mod::lemma_fundamental_div_mod(xg as int, 2);
            assert(pow2((i + 1) as nat) == 2 * pow2(i as nat)) by {
                vstd::arithmetic::power2::lemma_pow2_adds(1, i as nat);
                vstd::arithmetic::power2::lemma2_to64();
            }
            assert((2 * (xg / 2) + (xg % 2)) * pow2(i as nat) == (xg / 2) * (2 * pow2(
                i as nat,
            )) + (xg % 2) * pow2(i as nat)) by (nonlinear_arith);
        }
        i = i + 1;
    }
    proof {
        // the remaining quotient must be zero, else the total exceeds the
        // 64-bit bound
        if x > 0 {
            assert(x * pow2(64) >= pow2(64)) by (nonlinear_arith)
                requires
                    x >= 1,
            ;
            vstd::arithmetic::power2::lemma2_to64();
        }
        vstd::arithmetic::power2::lemma2_to64();
    }
    bits
}

/// The 128 little-endian bits of a 128-bit word.
pub fn u128_bits_le(v: u128) -> (r: Vec<bool>)
    ensures
        r@.len() == 128,
        bits_val(r@) == v,
{
    let lo = (v % 0x1_0000_0000_0000_0000) as u64;
    let hi = (v / 0x1_0000_0000_0000_0000) as u64;
    proof {
        vstd::arithmetic::div_mod::lemma_fundamental_div_mod(v as int, 0x1_0000_0000_0000_0000);
    }
    let b_lo = u64_bits_le(lo);
    let b_hi = u64_bits_le(hi);
    let ghost s0 = b_lo@;
    let bits = append_bits(b_lo, &b_hi);
    proof {
        lemma_bits_val_concat(s0, b_hi@);
        vstd::arithmetic::power2::lemma2_to64();
        assert(pow2(64) * (hi as nat) == (hi as nat) * pow2(64)) by (nonlinear_arith);
    }
    bits
}

/// The values of two to the large powers used by 128-bit integers.
pub proof fn lemma_pow2_large()
    ensures
        pow2(127) == 0x8000_0000_0000_0000_0000_0000_0000_0000nat,
        pow2(128) == 0x1_0000_0000_0000_0000_0000_0000_0000_0000nat,
{
    vstd::arithmetic::power2::lemma_pow2_adds(64, 63);
    vstd::arithmetic::power2::lemma_pow2_adds(64, 64);
    vstd::arithmetic::power2::lemma2_to64();
    vstd::arithmetic::power2::lemma2_to64_rest();
    assert(pow2(64) * pow2(63) == 0x8000_0000_0000_0000_0000_0000_0000_0000nat)
        by (nonlinear_arith)
        requires
            pow2(64) == 0x10000000000000000nat && pow2(63) == 0x8000000000000000nat,
    ;
    assert(pow2(64) * pow2(64) == 0x1_0000_0000_0000_0000_0000_0000_0000_0000nat)
        by (nonlinear_arith)
        requires
            pow2(64) == 0x10000000000000000nat,
    ;
}

/// Two to a power below the 128-bit range, as a machine word.
pub fn pow2_u128(w: usize) -> (r: u128)
    requires
        w <= 127,
    ensures
        r == pow2(w as nat),
{
    let mut r: u128 = 1;
    let mut i: usize = 0;
    proof {
        vstd::arithmetic::power2::lemma2_to64();
    }
    while i < w
        invariant
            i <= w,
            w <= 127,
            r == pow2(i as nat),
        decreases w - i,
    {
        proof {
            assert(pow2((i + 1) as nat) == 2 * pow2(i as nat)) by {
                vstd::arithmetic::power2::lemma_pow2_adds(1, i as nat);
                vstd::arithmetic::power2::lemma2_to64();
            }
            vstd::arithmetic::power2::lemma_pow2_strictly_increases(i as nat, 127);
            lemma_pow2_large();
        }
        r = r * 2;
        i = i + 1;
    }
    r
}

/// The 256 little-endian bits of a field element's canonical value.
pub fn fp_bits_le(v: &Fp) -> (r: Vec<bool>)
    ensures
        r@.len() == 256,
        bits_val(r@) == v@,
{
    let b0 = u64_bits_le(v.w0);
    let b1 = u64_bits_le(v.w1);
    let b2 = u64_bits_le(v.w2);
    let b3 = u64_bits_le(v.w3);
    let bits = b0;
    let ghost s0 = bits@;
    let bits = append_bits(bits, &b1);
    let bits = append_bits(bits, &b2);
    let bits = append_bits(bits, &b3);
    proof {
        lemma_bits_val_concat(s0, b1@);
        lemma_bits_val_concat(s0 + b1@, b2@);
        lemma_bits_val_concat((s0 + b1@) + b2@, b3@);
        vstd::arithmetic::power2::lemma2_to64();
        vstd::arithmetic::power2::lemma_pow2_adds(64, 64);
        vstd::arithmetic::power2::lemma_pow2_adds(128, 64);
        assert(bits@ =~= ((s0 + b1@) + b2@) + b3@);
        assert(pow2(64) * (v.w1 as nat) == (v.w1 as nat) * pow2(64)) by (nonlinear_arith);
        assert(pow2(128) * (v.w2 as nat) == (v.w2 as nat) * pow2(128)) by (nonlinear_arith);
        assert(pow2(192) * (v.w3 as nat) == (v.w3 as nat) * pow2(192)) by (nonlinear_arith);
        assert(pow2(128) == 0x1_0000_0000_0000_0000_0000_0000_0000_0000nat);
        assert(pow2(192)
            == 0x1_0000_0000_0000_0000_0000_0000_0000_0000_0000_0000_0000_0000nat);
    }
    bits
}

/// Appends the bits of `src` to `dst`.
fn append_bits(dst: Vec<bool>, src: &Vec<bool>) -> (r: Vec<bool>)
    ensures
        r@ == dst@ + src@,
{
    let mut out = dst;
    let n = src.len();
    let mut i: usize = 0;
    proof {
        assert(out@ =~= out@ + src@.take(0));
    }
    let ghost base = out@;
    while i < n
        invariant
            i <= n,
            n == src@.len(),
            out@ == base + src@.take(i as int),
        decreases n - i,
    {
        out.push(src[i]);
        proof {
            assert(out@ =~= base + src@.take(i + 1));
        }
        i = i + 1;
    }
    proof {
        assert(src@.take(n as int) =~= src@);
    }
    out
}

} // verus!
