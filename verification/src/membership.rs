//! Membership functions: the callables that give each label its meaning.
//!
//! The engine takes any `Fn(i64) -> i32` from a normalized input to a degree of
//! membership, both fixed-point numbers. What it needs of such a callable is
//! that it is a function in the mathematical sense: defined everywhere, with
//! one result per input.

use vstd::prelude::*;
use crate::fixed::ONE;

verus! {

/// Whether `f` is a membership function: callable on every input, and giving
/// the same degree each time it is called on the same input.
pub open spec fn is_membership<F: Fn(i64) -> i32>(f: F) -> bool {
    &&& forall|x: i64| call_requires(f, (x,))
    &&& forall|x: i64, d1: i32, d2: i32|
        call_ensures(f, (x,), d1) && call_ensures(f, (x,), d2) ==> d1 == d2
}

/// The degree of membership that `f` gives the normalized input `x`.
pub open spec fn degree_of<F: Fn(i64) -> i32>(f: F, x: i64) -> i32 {
    choose|d: i32| call_ensures(f, (x,), d)
}

/// Whether `f` is known to give a degree at the normalized input `x`: some
/// call of `f` on `x` returns. Where it holds, whatever is promised of the
/// results of `f` on `x` holds of [`degree_of`].
pub open spec fn defined_at<F: Fn(i64) -> i32>(f: F, x: i64) -> bool {
    exists|d: i32| call_ensures(f, (x,), d)
}

/// Evaluates the membership function `f` at the normalized input `x`.
pub(crate) fn evaluate<F: Fn(i64) -> i32>(f: &F, x: i64) -> (d: i32)
    requires
        is_membership(*f),
    ensures
        d == degree_of(*f, x),
        defined_at(*f, x),
{
    f(x)
}

/// A triangular membership function: 0 up to `left`, rising in a straight line
/// to 1 at `peak`, falling in a straight line to 0 at `right`, and 0 from there
/// on. The three corners are normalized inputs.
///
/// Where `peak` does not lie strictly between `left` and `right` the triangle
/// loses the side that would have no width; where `left` is not below `right`
/// the degree is 0 everywhere.
#[derive(Clone, Copy, Debug)]
pub struct Triangle {
    pub left: i64,
    pub peak: i64,
    pub right: i64,
}

impl Triangle {
    /// The degree of membership at the normalized input `x`.
    pub open spec fn degree(&self, x: int) -> int {
        if x <= self.left || x >= self.right {
            0
        } else if x < self.peak {
            (x - self.left) * ONE / (self.peak - self.left)
        } else if x == self.peak {
            ONE as int
        } else {
            (self.right - x) * ONE / (self.right - self.peak)
        }
    }

    /// Evaluates the triangle at the normalized input `x`.
    pub fn evaluate(&self, x: i64) -> (d: i32)
        ensures
            d == self.degree(x as int),
            0 <= d <= ONE,
    {
        if x <= self.left || x >= self.right {
            0
        } else if x < self.peak {
            slope(x as i128 - self.left as i128, self.peak as i128 - self.left as i128)
        } else if x == self.peak {
            ONE
        } else {
            slope(self.right as i128 - x as i128, self.right as i128 - self.peak as i128)
        }
    }
}

/// The fraction `part / whole` of [`ONE`], rounded down.
fn slope(part: i128, whole: i128) -> (d: i32)
    requires
        0 < part < whole < 0x1_0000_0000_0000_0000,
    ensures
        d == part * ONE / (whole as int),
        0 <= d < ONE,
{
    assert(0 <= part * 65536 < 0x1_0000_0000_0000_0000_0000);
    let scaled: i128 = part * (ONE as i128);
    assert(0 <= scaled / whole < 65536) by (nonlinear_arith)
        requires
            scaled == part * 65536,
            0 < part < whole,
    ;
    (scaled / whole) as i32
}

} // verus!
