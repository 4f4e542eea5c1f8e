use vstd::prelude::*;

verus! {

/// An element of a dense matrix: a value with a zero and the three
/// arithmetic operations that the multiplication kernels use.
///
/// Each operation is a function of its operands alone, named by the
/// matching `*_spec` function; the kernels' contracts are stated over those
/// names, so they say in which order a result was summed and make no claim
/// that the arithmetic is exact. A type whose arithmetic rounds, such as a
/// float wrapped in a struct, may implement the trait outside this crate;
/// there the `*_spec` functions are ordinary functions that compute what
/// the operations compute.
pub trait Scalar: Copy + Sized {
    spec fn zero_spec() -> Self;

    spec fn plus_spec(self, rhs: Self) -> Self;

    spec fn minus_spec(self, rhs: Self) -> Self;

    spec fn times_spec(self, rhs: Self) -> Self;

    fn zero() -> (r: Self)
        ensures
            r == Self::zero_spec(),
    ;

    fn plus(self, rhs: Self) -> (r: Self)
        ensures
            r == self.plus_spec(rhs),
    ;

    fn minus(self, rhs: Self) -> (r: Self)
        ensures
            r == self.minus_spec(rhs),
    ;

    fn times(self, rhs: Self) -> (r: Self)
        ensures
            r == self.times_spec(rhs),
    ;
}

impl Scalar for i64 {
    open spec fn zero_spec() -> i64 {
        0i64
    }

    open spec fn plus_spec(self, rhs: i64) -> i64 {
        wrap64(self + rhs)
    }

    open spec fn minus_spec(self, rhs: i64) -> i64 {
        wrap64(self - rhs)
    }

    open spec fn times_spec(self, rhs: i64) -> i64 {
        wrap64(self * rhs)
    }

    fn zero() -> (r: i64) {
        0i64
    }

    fn plus(self, rhs: i64) -> (r: i64) {
        self.wrapping_add(rhs)
    }

    fn minus(self, rhs: i64) -> (r: i64) {
        self.wrapping_sub(rhs)
    }

    fn times(self, rhs: i64) -> (r: i64) {
        self.wrapping_mul(rhs)
    }
}

/// The 64-bit two's-complement value congruent to `x` modulo 2^64.
pub open spec fn wrap64(x: int) -> i64 {
    let m = x % 0x1_0000_0000_0000_0000;
    if m >= 0x8000_0000_0000_0000 {
        (m - 0x1_0000_0000_0000_0000) as i64
    } else {
        m as i64
    }
}

} // verus!
