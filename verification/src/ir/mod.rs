//! The flat intermediate representation: variables, linear combinations,
//! statements, programs and their execution.

pub mod interpreter;
pub mod lincomb;
pub mod machine;
pub mod program;
pub mod r1cs;
pub mod statement;
