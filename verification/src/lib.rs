pub mod bigint;
pub mod error;
pub mod num_theory;
pub mod parser;
pub mod polynomial;
pub mod rational;
pub mod solver;
