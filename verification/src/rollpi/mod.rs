pub mod syntax;
pub mod reductions;
pub mod local_types;
pub mod environment;
