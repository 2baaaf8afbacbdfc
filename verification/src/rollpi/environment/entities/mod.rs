pub mod tag_creator;
pub mod participant;
pub mod fragments;
pub mod tag_map;
pub mod causal_graph;
pub mod batches;
pub mod party;
pub mod history;
