pub mod artifacts;
pub mod tree;
pub mod deps;
pub mod git_inputs;
pub mod symbols;
pub mod check;

pub use check::IndexScope;
