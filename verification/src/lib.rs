//! A reversible, multiparty process calculus: participants run process
//! terms side by side, meet on named channels, and can roll back a past
//! rendezvous together with all that followed from it.
//!
//! `rollpi` holds the calculus and its runtime; `calculus` and `hopi` hold
//! the plain and the higher-order pi calculus; `scenarios` holds small runs
//! to try.

pub mod text;
pub mod calculus;
pub mod hopi;
pub mod rollpi;
pub mod scenarios;
