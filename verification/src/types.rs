//! Result and state types shared by the GCD kernels.

use vstd::prelude::*;

verus! {

/// Extended-GCD result over unsigned 32-bit operands.
#[derive(Debug, Clone, Copy, PartialEq, Eq)]
pub struct XgcdU32 {
    pub gcd: u32,
    pub s: i32,
    pub t: i32,
}

/// Extended-GCD result over signed 32-bit operands.
#[derive(Debug, Clone, Copy, PartialEq, Eq)]
pub struct XgcdI32 {
    pub gcd: i32,
    pub s: i32,
    pub t: i32,
}

/// Extended-GCD result over signed 64-bit operands.
#[derive(Debug, Clone, Copy, PartialEq, Eq)]
pub struct XgcdI64 {
    pub gcd: i64,
    pub s: i64,
    pub t: i64,
}

/// Extended-GCD result over signed 128-bit operands.
#[derive(Debug, Clone, Copy, PartialEq, Eq)]
pub struct XgcdI128 {
    pub gcd: i128,
    pub s: i128,
    pub t: i128,
}

/// Extended-GCD result carrying only the left Bezout coefficient.
#[derive(Debug, Clone, Copy, PartialEq, Eq)]
pub struct LeftXgcdI32 {
    pub gcd: i32,
    pub s: i32,
}

/// Extended-GCD result carrying only the left Bezout coefficient.
#[derive(Debug, Clone, Copy, PartialEq, Eq)]
pub struct LeftXgcdI64 {
    pub gcd: i64,
    pub s: i64,
}

/// Extended-GCD result carrying only the left Bezout coefficient.
#[derive(Debug, Clone, Copy, PartialEq, Eq)]
pub struct LeftXgcdI128 {
    pub gcd: i128,
    pub s: i128,
}

/// Remainder/cofactor state threaded through bounded (partial) GCD steps.
#[derive(Debug, Clone, Copy, PartialEq, Eq)]
pub struct PartialXgcdI32 {
    pub r1: i32,
    pub r0: i32,
    pub c1: i32,
    pub c0: i32,
}

/// Remainder/cofactor state threaded through bounded (partial) GCD steps.
#[derive(Debug, Clone, Copy, PartialEq, Eq)]
pub struct PartialXgcdI64 {
    pub r1: i64,
    pub r0: i64,
    pub c1: i64,
    pub c0: i64,
}

/// Remainder/cofactor state for the 128-bit bounded GCD steps; the
/// cofactors are kept at 64 bits, as the callers' reduction bounds keep
/// them small.
#[derive(Debug, Clone, Copy, PartialEq, Eq)]
pub struct PartialXgcdI128 {
    pub r1: i128,
    pub r0: i128,
    pub c1: i64,
    pub c0: i64,
}

/// Selector for the fixed-quotient Euclidean entry points: the quotient
/// of the leading remainders is known to be the named value.
#[derive(Debug, Clone, Copy, PartialEq, Eq)]
pub enum SmallQCase {
    Q0,
    Q1,
    Q2,
    Q3,
    Q4,
    Q5,
}

/// Selector naming one of the 64-bit extended-GCD kernels for the
/// dispatch entry point.
#[derive(Debug, Clone, Copy, PartialEq, Eq)]
pub enum XgcdCoreI64 {
    BinaryL2r,
    BinaryL2rBranching,
    Stein,
    Divrem,
    Brent,
    Lehmer,
    Shallit,
    Flint,
    BlockStein2,
    BlockStein3,
    BlockStein4,
    BlockStein5,
}

/// Why a decimal (or general-radix) integer literal was rejected.
#[derive(Debug, Clone, PartialEq, Eq)]
pub enum ParseMpzError {
    InvalidInput,
    InvalidRadix,
    InteriorNul,
}

/// Why a file path could not be handed to a foreign interface.
#[derive(Debug, Clone, PartialEq, Eq)]
pub enum PathError {
    InteriorNul,
}

/// A quadruple of 32-bit words, as handed to the four-way conditional
/// swap.
pub type QuadI32 = (i32, i32, i32, i32);

/// One signed `2^a * 3^b` term of a two-three representation.
#[derive(Debug, Clone, Copy, PartialEq, Eq)]
pub struct TwoThreeTerm {
    pub sign: i32,
    pub a: i32,
    pub b: i32,
}

/// A factored two-three term with 16-bit exponents.
#[derive(Debug, Clone, Copy, PartialEq, Eq)]
pub struct FactoredTwoThreeTerm16 {
    pub a: u16,
    pub b: u16,
}

} // verus!
