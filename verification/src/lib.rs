//! Integer-coefficient multilinear polynomials over up to 128 Boolean
//! variables, and an engine that rewrites one variable at a time into the
//! polynomial of a Boolean gate.
//!
//! A polynomial is a sum of monomials `c · x_a · x_b · …`. Every variable is
//! Boolean, so `x · x = x`, and a monomial is a coefficient with a set of
//! variables. The engine holds one polynomial, a table that binds the
//! identifiers of its caller to variable slots, and for each slot the terms
//! that hold its variable, so that replacing `x` by `y ⊕ z` touches only the
//! terms with `x`.
//!
//! - [`bits`]: variable products as sets of slots
//! - [`monom`], [`polynom`], [`text`]: monomials, polynomials, and both as text
//! - [`algebra`], [`gates`], [`values`]: what sum, product, replacement and
//!   value of a polynomial are
//! - [`table`], [`index`], [`engine`]: the engine and its two books
//! - [`laws`]: what holds of all of them

pub mod algebra;
pub mod bits;
pub mod engine;
pub mod gates;
pub mod index;
pub mod laws;
pub mod monom;
pub mod polynom;
pub mod table;
pub mod text;
pub mod values;

pub use engine::PolyEngine;
pub use monom::Monom;
pub use polynom::BPolynom;
