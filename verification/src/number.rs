//! IEEE-754 double-precision arithmetic on bit patterns.
//!
//! A number is its 64-bit pattern. `value` says which number a pattern
//! stands for, `nearest` says what rounding to the nearest double is, and
//! `sum`, `product`, `quotient` and `root` hold the four operations, each
//! proved to return the exact result rounded. `exact` states where no
//! rounding takes place.
pub mod exact;
pub mod nearest;
pub mod product;
pub mod quotient;
pub mod root;
pub mod scalar;
pub mod sum;
pub mod value;
