//! Arbitrary-precision signed integer arithmetic.
//!
//! A value is a sign together with a sequence of 64-bit limbs, most
//! significant first.  The library provides ordering, the four basic
//! arithmetic operations, exponentiation (plain and modular), integer
//! square root, and decimal string conversion, each with a contract
//! relating the result to the mathematical value of its operands.

pub mod addsub;
pub mod decimal;
pub mod laws;
pub mod limbs;
pub mod muldiv;
pub mod model;
pub mod num;
pub mod powroot;

pub use num::Int;
