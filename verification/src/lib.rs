//! Verified solvers and small libraries for a collection of programming
//! puzzles: arbitrary-precision integers, a tiny JSON-like reader, bit grids,
//! a lambda-calculus interpreter and type checker, and several puzzle kernels.
pub mod radix;
pub mod bigint;
pub mod decimal;
pub mod utf8_facts;
pub mod text;
pub mod bitwords;
pub mod boxes;
pub mod json;
pub mod lexer;
pub mod lambda;
pub mod hm;
pub mod obsidian;
pub mod darkcells;
pub mod invasion;
pub mod flips;
pub mod bookreturn;
pub mod mosaic;
pub mod valet;
pub mod fields;
