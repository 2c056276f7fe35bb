//! Breadth-first puzzle solving, with a Klotski instance.

pub mod generic_solver;
pub mod klotski;
