pub mod tiers;
pub mod simple_deterministic;
pub mod simple_order;
