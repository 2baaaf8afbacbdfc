//! How a participant picks and runs its next unit of work.

use crate::rollpi::environment::entities::participant::ParticipantState;
pub use crate::rollpi::environment::entities::participant::PrimProcTransf;
use crate::rollpi::environment::entities::party::PartyContext;
use crate::rollpi::environment::types::ProtocolError;
use crate::rollpi::syntax::{TaggedPrimProc, TaggedPrimProcView};
use vstd::prelude::*;

verus! {

/// A policy that picks one unit of work that is live and not condemned,
/// runs it, and says what takes its place.
pub trait Strategy: Send {
    /// Runs one unit, or none where none can run now. The index in the
    /// result is that of a live unit that is not condemned.
    fn run_strategy(&self, pctx: &mut PartyContext, state: &ParticipantState) -> (r: Result<
        Option<PrimProcTransf>,
        ProtocolError,
    >)
        requires
            old(pctx).wf(),
        ensures
            final(pctx).wf(),
            final(pctx).id() == old(pctx).id(),
            final(pctx).tags().prefix() == old(pctx).tags().prefix(),
            final(pctx).tags().count() >= old(pctx).tags().count(),
            match r {
                Ok(Some(transf)) => transf.0 < state@.live.len() && !state@.frozen.contains(
                    state@.live[transf.0 as int].tag,
                ),
                _ => true,
            },
    ;

    /// Whether the strategy asks for a pause after `unit`.
    spec fn slows(&self, unit: TaggedPrimProcView) -> bool;

    /// Whether the participant is to pause once it has run `unit`, so that
    /// other work is not starved.
    fn throttles(&self, unit: &TaggedPrimProc) -> (b: bool)
        ensures
            b == self.slows(unit@),
    ;
}

} // verus!
