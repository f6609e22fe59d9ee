//! Truck factor and authorship analysis of a git history.
//!
//! The library turns the plain text that `git` prints into commit records,
//! merges author aliases, follows file renames back through history,
//! gathers per-file authorship and computes the truck factor of the project.

mod text;
mod rename;
mod dsu;
mod alias;
mod strmap;

pub mod git;
pub mod doa;
pub mod tf;
pub mod gini;
pub mod file;
