//! A compiler core for arithmetic circuits: a flat intermediate representation
//! of rank-1 constraints over a prime field, the passes that lower and
//! simplify programs, and an interpreter that computes witnesses.

pub mod abi_gen;
pub mod cli;
pub mod compile;
pub mod field;
pub mod flatten;
pub mod ir;
pub mod parse;
pub mod pattern;
pub mod proof_system;
pub mod resolvers;
pub mod run;
pub mod semantics;
pub mod static_analysis;
pub mod text;
pub mod typed_absy;
