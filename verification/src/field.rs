//! The two binary fields the codec works over: the wide 128-bit field that
//! carries codeword values, and the narrow 64-bit field that messages may
//! arrive in before repacking.

use vstd::prelude::*;

verus! {

/// The image of x^128 under the reduction x^128 + x^7 + x^2 + x + 1.
pub const REDUCTION: u128 = 0x87;

/// An element of the wide binary field GF(2^128), represented by its
/// coordinates in the polynomial basis modulo x^128 + x^7 + x^2 + x + 1.
/// Addition is coordinatewise (XOR); multiplication is carry-less
/// polynomial multiplication followed by reduction.
#[derive(Clone, Copy, Debug, PartialEq, Eq, Structural)]
pub struct F128 {
    pub v: u128,
}

/// An element of the narrow 64-bit binary field, kept only as the packed
/// coordinate vector a message element arrives in.
#[derive(Clone, Copy, Debug, PartialEq, Eq, Structural)]
pub struct F64 {
    pub v: u64,
}

/// Multiplication by x in GF(2^128): shift left one bit and, if x^128 was
/// produced, replace it by its reduction.
pub open spec fn xtime_spec(b: u128) -> u128 {
    if b >> 127 == 1u128 {
        (b << 1) ^ REDUCTION
    } else {
        b << 1
    }
}

/// `n` remaining steps of the shift-and-add product: each step adds `b` when
/// the low bit of `a` is set, then halves `a` and multiplies `b` by x.
pub closed spec fn mul_rec(n: nat, a: u128, b: u128) -> u128
    decreases n,
{
    if n == 0 {
        0u128
    } else {
        (if a & 1 == 1u128 {
            b
        } else {
            0u128
        }) ^ mul_rec((n - 1) as nat, a >> 1, xtime_spec(b))
    }
}

/// The product of `a` and `b` in GF(2^128): all 128 shift-and-add steps.
pub open spec fn mul_spec(a: u128, b: u128) -> u128 {
    mul_rec(128, a, b)
}

/// Two narrow elements packed into one wide element: the low and the high
/// 64 coordinates of the degree-2 extension.
pub open spec fn pack_spec(lo: u64, hi: u64) -> u128 {
    (lo as u128) | ((hi as u128) << 64)
}

/// Zero is absorbing on the left of the product.
pub proof fn lemma_mul_rec_zero(n: nat, b: u128)
    ensures
        mul_rec(n, 0u128, b) == 0u128,
    decreases n,
{
    if n > 0 {
        assert(0u128 & 1 == 0u128) by (bit_vector);
        assert(0u128 >> 1 == 0u128) by (bit_vector);
        lemma_mul_rec_zero((n - 1) as nat, xtime_spec(b));
        assert(0u128 ^ 0u128 == 0u128) by (bit_vector);
    }
}

/// 0 * b == 0.
pub proof fn lemma_mul_zero(b: u128)
    ensures
        mul_spec(0u128, b) == 0u128,
{
    lemma_mul_rec_zero(128, b);
}

/// 1 * b == b.
pub proof fn lemma_mul_one(b: u128)
    ensures
        mul_spec(1u128, b) == b,
{
    assert(1u128 & 1 == 1u128) by (bit_vector);
    assert(1u128 >> 1 == 0u128) by (bit_vector);
    lemma_mul_rec_zero(127, xtime_spec(b));
    assert(b ^ 0u128 == b) by (bit_vector);
}

impl F128 {
    /// The element with the given coordinate vector.
    pub fn new(v: u128) -> (r: F128)
        ensures
            r.v == v,
    {
        F128 { v }
    }

    /// The additive identity.
    pub fn zero() -> (r: F128)
        ensures
            r.v == 0u128,
    {
        F128 { v: 0 }
    }

    /// The multiplicative identity.
    pub fn one() -> (r: F128)
        ensures
            r.v == 1u128,
    {
        F128 { v: 1 }
    }

    /// Field addition: coordinatewise XOR. In characteristic 2 this is also
    /// subtraction.
    pub fn add(self, o: F128) -> (r: F128)
        ensures
            r.v == self.v ^ o.v,
    {
        F128 { v: self.v ^ o.v }
    }

    /// Field multiplication by 128 shift-and-add steps, reducing by the
    /// irreducible polynomial as each power of x is produced.
    pub fn mul(self, o: F128) -> (r: F128)
        ensures
            r.v == mul_spec(self.v, o.v),
    {
        let mut a: u128 = self.v;
        let mut b: u128 = o.v;
        let mut acc: u128 = 0;
        let mut i: usize = 0;
        proof {
            let m = mul_spec(self.v, o.v);
            assert(0u128 ^ m == m) by (bit_vector);
        }
        while i < 128
            invariant
                i <= 128,
                acc ^ mul_rec((128 - i) as nat, a, b) == mul_spec(self.v, o.v),
            decreases 128 - i,
        {
            let sel: u128 = if a & 1 == 1 {
                b
            } else {
                0
            };
            let b2: u128 = if b >> 127 == 1 {
                (b << 1) ^ REDUCTION
            } else {
                b << 1
            };
            proof {
                let rest = mul_rec((127 - i) as nat, a >> 1, xtime_spec(b));
                assert(mul_rec((128 - i) as nat, a, b) == sel ^ rest);
                assert(acc ^ (sel ^ rest) == (acc ^ sel) ^ rest) by (bit_vector);
            }
            acc = acc ^ sel;
            a = a >> 1;
            b = b2;
            i = i + 1;
        }
        proof {
            assert(acc ^ mul_rec(0, a, b) == acc ^ 0u128);
            assert(acc ^ 0u128 == acc) by (bit_vector);
        }
        F128 { v: acc }
    }
}

impl F64 {
    /// The element with the given coordinate vector.
    pub fn new(v: u64) -> (r: F64)
        ensures
            r.v == v,
    {
        F64 { v }
    }
}

/// The coordinate vectors of a sequence of wide-field elements.
pub open spec fn seq_vals(s: Seq<F128>) -> Seq<u128> {
    s.map_values(|x: F128| x.v)
}

/// Lift two narrow elements into the wide field: the first supplies the low
/// 64 coordinates, the second the high 64.
pub fn pack(lo: F64, hi: F64) -> (r: F128)
    ensures
        r.v == pack_spec(lo.v, hi.v),
{
    F128 { v: (lo.v as u128) | ((hi.v as u128) << 64) }
}

} // verus!
