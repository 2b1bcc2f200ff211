//! Vector arithmetic on 3-component single-precision vectors, carried as bit
//! patterns. Each executable function is pinned to a spec-level counterpart
//! written over the named rounded operations of `float_bits`.

use crate::float_bits::{add_bits, f_add, f_mul, f_sub, mul_bits, sub_bits};
use vstd::prelude::*;

verus! {

/// Dot product of two 3-vectors: `a0*b0 + a1*b1 + a2*b2`, summed left to
/// right with rounding at every step.
pub open spec fn v_dot(a: Seq<u32>, b: Seq<u32>) -> u32 {
    f_add(f_add(f_mul(a[0], b[0]), f_mul(a[1], b[1])), f_mul(a[2], b[2]))
}

/// Cross product of two 3-vectors, each component rounded.
pub open spec fn v_cross(a: Seq<u32>, b: Seq<u32>) -> Seq<u32> {
    seq![
        f_sub(f_mul(a[1], b[2]), f_mul(a[2], b[1])),
        f_sub(f_mul(a[2], b[0]), f_mul(a[0], b[2])),
        f_sub(f_mul(a[0], b[1]), f_mul(a[1], b[0])),
    ]
}

/// `a + b * m`, componentwise with rounding.
pub open spec fn v_addmul(a: Seq<u32>, b: Seq<u32>, m: u32) -> Seq<u32> {
    seq![
        f_add(a[0], f_mul(b[0], m)),
        f_add(a[1], f_mul(b[1], m)),
        f_add(a[2], f_mul(b[2], m)),
    ]
}

/// `v * k`, componentwise with rounding.
pub open spec fn v_scale(v: Seq<u32>, k: u32) -> Seq<u32> {
    seq![f_mul(v[0], k), f_mul(v[1], k), f_mul(v[2], k)]
}

/// Dot product of two 3-vectors.
pub fn dot_product(a: &[u32; 3], b: &[u32; 3]) -> (r: u32)
    ensures
        r == v_dot(a@, b@),
{
    add_bits(add_bits(mul_bits(a[0], b[0]), mul_bits(a[1], b[1])), mul_bits(a[2], b[2]))
}

/// Cross product of two 3-vectors.
pub fn cross_product(a: &[u32; 3], b: &[u32; 3]) -> (r: [u32; 3])
    ensures
        r@ == v_cross(a@, b@),
{
    let r = [
        sub_bits(mul_bits(a[1], b[2]), mul_bits(a[2], b[1])),
        sub_bits(mul_bits(a[2], b[0]), mul_bits(a[0], b[2])),
        sub_bits(mul_bits(a[0], b[1]), mul_bits(a[1], b[0])),
    ];
    proof {
        assert(r@ =~= v_cross(a@, b@));
    }
    r
}

/// `a + b * b_mult`, componentwise.
pub fn add_vector(a: &[u32; 3], b: &[u32; 3], b_mult: u32) -> (r: [u32; 3])
    ensures
        r@ == v_addmul(a@, b@, b_mult),
{
    let r = [
        add_bits(a[0], mul_bits(b[0], b_mult)),
        add_bits(a[1], mul_bits(b[1], b_mult)),
        add_bits(a[2], mul_bits(b[2], b_mult)),
    ];
    proof {
        assert(r@ =~= v_addmul(a@, b@, b_mult));
    }
    r
}

/// `input * factor`, componentwise.
pub fn mult_vector(input: &[u32; 3], factor: u32) -> (r: [u32; 3])
    ensures
        r@ == v_scale(input@, factor),
{
    let r = [
        mul_bits(input[0], factor),
        mul_bits(input[1], factor),
        mul_bits(input[2], factor),
    ];
    proof {
        assert(r@ =~= v_scale(input@, factor));
    }
    r
}

} // verus!
