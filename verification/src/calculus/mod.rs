pub mod errors;
pub mod syntax;
pub mod parser;
