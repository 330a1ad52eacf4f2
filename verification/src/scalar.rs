//! The coefficient type of the canonicalization backend.
//!
//! Every coefficient the backend stores or computes is of a type `V`
//! satisfying [`Scalar`]: a copyable value with equality, negation, addition,
//! multiplication, division and a conversion from small integers.  The
//! backend is instantiated with `f64` by its Python entry points.
//!
//! Contracts speak of coefficient values through the specification traits
//! that vstd attaches to the standard operator traits (`neg_spec`,
//! `mul_spec`, ...).  Those specifications describe `V`'s operators only when
//! `V` declares that it obeys them, so every statement about computed values
//! is guarded by [`exact`].  Statements about the sparsity structure (rows,
//! columns, parameter slices, counts) hold for every `V`.
use vstd::prelude::*;
use std::ops::{Add, Div, Mul, Neg};
use vstd::std_specs::cmp::PartialEqSpec;
use vstd::std_specs::convert::FromSpec;
use vstd::std_specs::ops::{AddSpec, DivSpec, MulSpec, NegSpec};

verus! {

/// Coefficient values: copyable numbers with the four arithmetic operators.
pub trait Scalar:
    Copy + PartialEq + Neg<Output = Self> + Add<Output = Self> + Mul<Output = Self> + Div<
    Output = Self,
> + From<i32> + From<u32> {

}

impl<T> Scalar for T where
    T: Copy + PartialEq + Neg<Output = T> + Add<Output = T> + Mul<Output = T> + Div<
        Output = T,
    > + From<i32> + From<u32>,
 {

}

/// The operators of `V` have no precondition (true of floating point numbers).
pub open spec fn ops_total<V: Scalar>() -> bool {
    &&& forall|a: V| #[trigger] a.neg_req()
    &&& forall|a: V, b: V| #[trigger] a.add_req(b)
    &&& forall|a: V, b: V| #[trigger] a.mul_req(b)
    &&& forall|a: V, b: V| #[trigger] a.div_req(b)
}

/// `V`'s equality, operators and integer conversions follow their vstd
/// specification functions.
pub open spec fn exact<V: Scalar>() -> bool {
    &&& V::obeys_eq_spec()
    &&& V::obeys_neg_spec()
    &&& V::obeys_add_spec()
    &&& V::obeys_mul_spec()
    &&& V::obeys_div_spec()
    &&& <V as FromSpec<i32>>::obeys_from_spec()
    &&& <V as FromSpec<u32>>::obeys_from_spec()
}

/// The zero coefficient.
pub open spec fn zero_spec<V: Scalar>() -> V {
    <V as FromSpec<i32>>::from_spec(0i32)
}

/// The unit coefficient.
pub open spec fn one_spec<V: Scalar>() -> V {
    <V as FromSpec<i32>>::from_spec(1i32)
}

/// `x` compares equal to zero.
pub open spec fn is_zero_spec<V: Scalar>(x: V) -> bool {
    x.eq_spec(&zero_spec::<V>())
}

/// The coefficient `0`.
pub fn zero<V: Scalar>() -> (z: V)
    ensures
        exact::<V>() ==> z == zero_spec::<V>(),
{
    V::from(0i32)
}

/// The coefficient `1`.
pub fn one<V: Scalar>() -> (z: V)
    ensures
        exact::<V>() ==> z == one_spec::<V>(),
{
    V::from(1i32)
}

/// Whether `x` compares equal to zero (`-0.0` does, for floating point).
pub fn is_zero<V: Scalar>(x: &V) -> (b: bool)
    ensures
        exact::<V>() ==> b == is_zero_spec(*x),
{
    let z: V = zero();
    *x == z
}

/// The coefficient value of an integer `v`, computed as `hi * 2^16 * 2^16 + lo`
/// with `hi` the upper and `lo` the lower 32 bits of `v`.
pub open spec fn from_int_spec<V: Scalar>(v: i64) -> V {
    let hi = (v >> 32u64) as i32;
    let lo = (v & 0xffff_ffffi64) as u32;
    let base = <V as FromSpec<u32>>::from_spec(0x1_0000u32);
    <V as FromSpec<i32>>::from_spec(hi).mul_spec(base).mul_spec(base).add_spec(
        <V as FromSpec<u32>>::from_spec(lo),
    )
}

/// Converts an integer to a coefficient.
pub fn from_int<V: Scalar>(v: i64) -> (r: V)
    requires
        ops_total::<V>(),
    ensures
        exact::<V>() ==> r == from_int_spec::<V>(v),
{
    let hi: i64 = v >> 32u64;
    let lo: i64 = v & 0xffff_ffffi64;
    assert(i32::MIN <= v >> 32u64 <= i32::MAX) by (bit_vector);
    assert(0 <= v & 0xffff_ffffi64 <= u32::MAX) by (bit_vector);
    let hi32: i32 = hi as i32;
    let lo32: u32 = lo as u32;
    let base: V = V::from(0x1_0000u32);
    let h: V = V::from(hi32);
    let hb: V = h.mul(base);
    let hbb: V = hb.mul(base);
    let l: V = V::from(lo32);
    hbb.add(l)
}

} // verus!
