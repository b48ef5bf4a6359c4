//! Search kernel for cyclotomic integers of small castle.
//!
//! A cyclotomic integer is a sum of roots of unity `z^{e_0} + ... + z^{e_{k-1}}`
//! for a primitive root `z` of even order; its castle is the largest squared
//! modulus among its Galois conjugates.  The library enumerates exponent
//! tuples under divisibility constraints, prunes those that are redundant or
//! already covered by known theorems, and returns the survivors in a total
//! order.  Floating-point arithmetic is left to the caller, who supplies the
//! comparison of one conjugate against the cutoff.

pub mod divisibility;

pub mod constants;

pub mod rules;

pub mod cyclotomic;

pub mod combinations;

pub mod aggregator;

pub mod survivors;

pub mod cassels;
