//! Middle end of a hardware-description compiler.
//!
//! The crate lowers a kernel function (a syntax tree describing synchronous
//! hardware behaviour) into a register-based intermediate representation,
//! optimizes it with a fixed pipeline of rewrite passes, verifies the result,
//! and closes over every other kernel the top-level kernel calls.  The
//! path/bit-layout engine in [`path`] computes the absolute bit range of any
//! sub-field of a composite hardware value and expands runtime-variable
//! indices into the finite set of concrete paths they may denote.

pub mod ast;
pub mod bits;
pub mod check;
pub mod driver;
pub mod kind;
pub mod module;
pub mod passes;
pub mod path;
pub mod rhif;
pub mod sim;
pub mod ty;
pub mod util;
