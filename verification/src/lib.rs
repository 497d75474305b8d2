//! Normalisation passes for a small expression language: integer literals,
//! `read`, binary `+`, unary `-` and lexically scoped `let`.
//!
//! Scope resolution gives every bound identifier a name that carries the depth
//! of its binding; operand flattening then hoists every operand that is not an
//! atom into a binding of its own.
pub mod frontend;
