pub mod types;
pub mod channel;
pub mod entities;
pub mod components;
pub mod generator;
