//! Trusted interface to the 8-lane 32-bit vectors of the `wide` crate.
//!
//! The SIMD pipelines of this library carry their per-lane state in
//! `wide::u32x8` registers.  Verus sees that type only through the
//! uninterpreted view [`lanes`]; every operation is a thin wrapper whose
//! contract states, lane by lane, what the `wide` source shows.
use vstd::prelude::*;

verus! {

#[verifier::external_type_specification]
#[verifier::external_body]
pub struct ExU32x8(wide::u32x8);

/// The eight 32-bit lanes of a vector, in index order.
pub uninterp spec fn lanes(v: wide::u32x8) -> Seq<u32>;

/// Relies on wide::u32x8::splat: every lane is set to `x`.
#[verifier::external_body]
pub fn splat(x: u32) -> (r: wide::u32x8)
    ensures
        lanes(r).len() == 8,
        forall|i: int| 0 <= i < 8 ==> lanes(r)[i] == x,
{
    wide::u32x8::splat(x)
}

/// Relies on wide::u32x8::new: lane `i` is set to `a[i]`.
#[verifier::external_body]
pub fn from_array(a: [u32; 8]) -> (r: wide::u32x8)
    ensures
        lanes(r).len() == 8,
        forall|i: int| 0 <= i < 8 ==> lanes(r)[i] == a@[i],
{
    wide::u32x8::new(a)
}

/// Relies on wide::u32x8::to_array: element `i` is lane `i`.
#[verifier::external_body]
pub fn to_array(v: wide::u32x8) -> (r: [u32; 8])
    ensures
        forall|i: int| 0 <= i < 8 ==> r@[i] == lanes(v)[i],
{
    v.to_array()
}

/// Relies on the lanewise `^` of wide::u32x8 (BitXor).
#[verifier::external_body]
pub fn xor(a: wide::u32x8, b: wide::u32x8) -> (r: wide::u32x8)
    ensures
        lanes(r).len() == 8,
        forall|i: int| 0 <= i < 8 ==> lanes(r)[i] == lanes(a)[i] ^ lanes(b)[i],
{
    a ^ b
}

/// Relies on the lanewise `&` of wide::u32x8 (BitAnd).
#[verifier::external_body]
pub fn bit_and(a: wide::u32x8, b: wide::u32x8) -> (r: wide::u32x8)
    ensures
        lanes(r).len() == 8,
        forall|i: int| 0 <= i < 8 ==> lanes(r)[i] == lanes(a)[i] & lanes(b)[i],
{
    a & b
}

/// Relies on the lanewise `|` of wide::u32x8 (BitOr).
#[verifier::external_body]
pub fn bit_or(a: wide::u32x8, b: wide::u32x8) -> (r: wide::u32x8)
    ensures
        lanes(r).len() == 8,
        forall|i: int| 0 <= i < 8 ==> lanes(r)[i] == lanes(a)[i] | lanes(b)[i],
{
    a | b
}

/// Relies on the lanewise `<< u32` of wide::u32x8, which shifts by `n % 32`.
#[verifier::external_body]
pub fn shl(a: wide::u32x8, n: u32) -> (r: wide::u32x8)
    requires
        n < 32,
    ensures
        lanes(r).len() == 8,
        forall|i: int| 0 <= i < 8 ==> lanes(r)[i] == lanes(a)[i] << n,
{
    a << n
}

/// Relies on the lanewise `>> u32` of wide::u32x8, which shifts by `n % 32`.
#[verifier::external_body]
pub fn shr(a: wide::u32x8, n: u32) -> (r: wide::u32x8)
    requires
        n < 32,
    ensures
        lanes(r).len() == 8,
        forall|i: int| 0 <= i < 8 ==> lanes(r)[i] == lanes(a)[i] >> n,
{
    a >> n
}

/// Relies on the lanewise `+` of wide::u32x8, which wraps modulo 2^32.
#[verifier::external_body]
pub fn add_wrap(a: wide::u32x8, b: wide::u32x8) -> (r: wide::u32x8)
    ensures
        lanes(r).len() == 8,
        forall|i: int|
            0 <= i < 8 ==> lanes(r)[i] == ((lanes(a)[i] + lanes(b)[i]) % 0x1_0000_0000) as u32,
{
    a + b
}

/// Relies on the lanewise `-` of wide::u32x8, which wraps modulo 2^32.
#[verifier::external_body]
pub fn sub_wrap(a: wide::u32x8, b: wide::u32x8) -> (r: wide::u32x8)
    ensures
        lanes(r).len() == 8,
        forall|i: int|
            0 <= i < 8 ==> lanes(r)[i] == ((lanes(a)[i] - lanes(b)[i] + 0x1_0000_0000)
                % 0x1_0000_0000) as u32,
{
    a - b
}

/// Relies on wide::u32x8::min: the lanewise unsigned minimum.
#[verifier::external_body]
pub fn min_lanes(a: wide::u32x8, b: wide::u32x8) -> (r: wide::u32x8)
    ensures
        lanes(r).len() == 8,
        forall|i: int|
            0 <= i < 8 ==> lanes(r)[i] == if lanes(a)[i] <= lanes(b)[i] {
                lanes(a)[i]
            } else {
                lanes(b)[i]
            },
{
    a.min(b)
}

/// Relies on wide::u32x8::simd_lt: all-ones where `a < b` unsigned, else zero.
#[verifier::external_body]
pub fn lt_mask(a: wide::u32x8, b: wide::u32x8) -> (r: wide::u32x8)
    ensures
        lanes(r).len() == 8,
        forall|i: int|
            0 <= i < 8 ==> lanes(r)[i] == if lanes(a)[i] < lanes(b)[i] {
                0xffff_ffffu32
            } else {
                0u32
            },
{
    a.simd_lt(b)
}

/// Relies on wide::u32x8::simd_eq: all-ones where the lanes are equal, else zero.
#[verifier::external_body]
pub fn eq_mask(a: wide::u32x8, b: wide::u32x8) -> (r: wide::u32x8)
    ensures
        lanes(r).len() == 8,
        forall|i: int|
            0 <= i < 8 ==> lanes(r)[i] == if lanes(a)[i] == lanes(b)[i] {
                0xffff_ffffu32
            } else {
                0u32
            },
{
    a.simd_eq(b)
}

/// Relies on wide::u32x8::select: for a lane mask, picks the lane of
/// `t` where the mask is all ones and the lane of `f` where it is zero.
#[verifier::external_body]
pub fn select_lanes(m: wide::u32x8, t: wide::u32x8, f: wide::u32x8) -> (r: wide::u32x8)
    requires
        forall|i: int| 0 <= i < 8 ==> lanes(m)[i] == 0 || lanes(m)[i] == 0xffff_ffffu32,
    ensures
        lanes(r).len() == 8,
        forall|i: int|
            0 <= i < 8 ==> lanes(r)[i] == if lanes(m)[i] != 0 {
                lanes(t)[i]
            } else {
                lanes(f)[i]
            },
{
    m.select(t, f)
}

} // verus!
