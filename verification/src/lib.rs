//! A fuzzy-logic engine over fixed-point numbers.
//!
//! A fuzzy variable ([`Fuzzy`]) is a set of labelled membership functions over a
//! bounded crisp domain. [`Fuzzy::fuzzify`] turns a crisp value into one degree
//! of membership per label. [`Fuzzy::defuzzify`] turns one activation strength
//! per label into a crisp value: it clips each membership function at its
//! strength, takes the greatest clipped degree at each of a hundred evenly
//! spread positions, and gives back the crisp value under the centre of mass of
//! that curve.
//!
//! Every quantity is a binary fixed-point number with sixteen fractional bits
//! (see [`fixed`]), and every division rounds down, so that each result is an
//! exact function of the inputs.
//!
//! - [`fixed`]: the number format, and the maps between a domain and the unit
//!   interval.
//! - [`membership`]: what a membership function is, and the triangle.
//! - [`aggregate`]: the greatest clipped degree at one position.
//! - [`centroid`]: the sampled curve, its moments and its centre of mass.
//! - [`engine`]: the fuzzy variable itself.

pub mod aggregate;
pub mod centroid;
pub mod engine;
pub mod fixed;
pub mod membership;

pub use engine::{Fuzzy, FuzzyError, FuzzyView, RESOLUTION};
pub use fixed::ONE;
pub use membership::Triangle;
