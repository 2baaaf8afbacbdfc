pub mod actions;
pub mod picker;
pub mod strategies;
