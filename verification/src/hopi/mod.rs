pub mod syntax;
pub mod reductions;
