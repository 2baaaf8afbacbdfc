//! The strategy that never waits: sends first, then rollbacks, then
//! receives, then ends.

use super::tiers::{
    candidate, channel_of, find_first, first_in_tier, first_receive, local_outcome, no_receive,
    ran_receive, receive_failure, run_first_receive, run_local_unit, tier_empty, Tier,
};
use crate::rollpi::environment::components::actions::{
    ActionContext, ActionInterpreter, SimpleActionInterpreter,
};
use crate::rollpi::environment::components::picker::{PrimProcTransf, Strategy};
use crate::rollpi::environment::entities::participant::{ParticipantState, ParticipantStateView};
use crate::rollpi::environment::entities::party::PartyContext;
use crate::rollpi::environment::entities::tag_creator::minted_key;
use crate::rollpi::environment::types::ProtocolError;
use crate::rollpi::syntax::{views, PrimProcess, TaggedPrimProc, TaggedPrimProcView};
use vstd::prelude::*;

verus! {

/// Picks, in this order: the first send, the first rollback, the first
/// receive for which a message waits, the first end; each among the live
/// units that are not condemned.
pub struct SimpleDetermStrat {
    interpreter: Box<dyn ActionInterpreter>,
}

/// Whether the `i`-th live unit, of the kind `tier`, is what this strategy
/// picks without a look at the channels: the first send; or, where there is
/// no send, the first rollback.
pub open spec fn picked_at_once(s: ParticipantStateView, tier: Tier, i: int) -> bool {
    &&& first_in_tier(s, tier, i)
    &&& tier == Tier::AnySend || (tier == Tier::Rollback && tier_empty(s, Tier::AnySend))
}

/// This strategy picks at most one unit at once.
pub proof fn lemma_picked_at_once(s: ParticipantStateView)
    ensures
        forall|t1: Tier, i1: int, t2: Tier, i2: int|
            #![trigger picked_at_once(s, t1, i1), picked_at_once(s, t2, i2)]
            picked_at_once(s, t1, i1) && picked_at_once(s, t2, i2) ==> t1 == t2 && i1 == i2,
        tier_empty(s, Tier::AnySend) && tier_empty(s, Tier::Rollback) ==> forall|t: Tier, i: int|
            !#[trigger] picked_at_once(s, t, i),
{
    assert forall|t1: Tier, i1: int, t2: Tier, i2: int|
        #![trigger picked_at_once(s, t1, i1), picked_at_once(s, t2, i2)]
        picked_at_once(s, t1, i1) && picked_at_once(s, t2, i2) implies t1 == t2 && i1 == i2 by {
        assert(candidate(s, t1, i1));
        assert(candidate(s, t2, i2));
        if t1 == t2 {
            if i1 < i2 {
                assert(!candidate(s, t2, i1));
            } else if i2 < i1 {
                assert(!candidate(s, t1, i2));
            }
        }
    }
    if tier_empty(s, Tier::AnySend) && tier_empty(s, Tier::Rollback) {
        assert forall|t: Tier, i: int| !#[trigger] picked_at_once(s, t, i) by {
            if picked_at_once(s, t, i) {
                assert(candidate(s, t, i));
            }
        }
    }
}

/// Whether the `i`-th live unit is the end that this strategy picks last:
/// the first end, where there is neither a send nor a rollback.
pub open spec fn picked_at_last(s: ParticipantStateView, i: int) -> bool {
    &&& first_in_tier(s, Tier::End, i)
    &&& tier_empty(s, Tier::AnySend)
    &&& tier_empty(s, Tier::Rollback)
}

/// Whether `r` is what running the unit that this strategy picks at once
/// gives.
pub open spec fn ran_at_once(
    s: ParticipantStateView,
    names: Seq<Seq<char>>,
    r: Result<Option<PrimProcTransf>, ProtocolError>,
) -> bool {
    exists|tier: Tier, pos: int| #[trigger]
        picked_at_once(s, tier, pos) && local_outcome(s, pos, names, r)
}

/// Whether `r` is what running the end that this strategy picks last
/// gives.
pub open spec fn ran_at_last(
    s: ParticipantStateView,
    names: Seq<Seq<char>>,
    r: Result<Option<PrimProcTransf>, ProtocolError>,
) -> bool {
    exists|pos: int| #[trigger] picked_at_last(s, pos) && local_outcome(s, pos, names, r)
}

impl SimpleDetermStrat {
    /// The strategy with the interpreter `interpreter`. The contract is
    /// empty: no clause on a value behind `Box<dyn ActionInterpreter>` could
    /// be proved.
    pub fn new(interpreter: Box<dyn ActionInterpreter>) -> Self {
        SimpleDetermStrat { interpreter }
    }

    /// Runs the `pos`-th live unit, which is no receive: an end and a
    /// rollback leave nothing and never fail; a send leaves nothing and fails
    /// on a channel that was never set up or that is disconnected.
    fn run_local(&self, pctx: &mut PartyContext, state: &ParticipantState, pos: usize) -> (r: Result<
        Option<PrimProcTransf>,
        ProtocolError,
    >)
        requires
            old(pctx).wf(),
            pos < state@.live.len(),
            !(state@.live[pos as int].proc is Recv),
        ensures
            final(pctx).wf(),
            final(pctx).id() == old(pctx).id(),
            final(pctx).comm() == old(pctx).comm(),
            final(pctx).tags().prefix() == old(pctx).tags().prefix(),
            final(pctx).tags().count() == old(pctx).tags().count(),
            local_outcome(state@, pos as int, old(pctx).comm().channel_pool.names(), r),
    {
        run_local_unit(&self.interpreter, pctx, state, pos)
    }
}

impl Default for SimpleDetermStrat {
    fn default() -> Self {
        SimpleDetermStrat { interpreter: Box::new(SimpleActionInterpreter {  }) }
    }
}

impl Strategy for SimpleDetermStrat {
    fn run_strategy(&self, pctx: &mut PartyContext, state: &ParticipantState) -> (r: Result<
        Option<PrimProcTransf>,
        ProtocolError,
    >)
        ensures
            final(pctx).comm() == old(pctx).comm(),
            match r {
                // nothing ran: nothing could
                Ok(None) => tier_empty(state@, Tier::AnySend) && tier_empty(state@, Tier::Rollback)
                    && tier_empty(state@, Tier::End) && *final(pctx) == *old(pctx),
                // a receive ran, under the next key and for want of a send
                // or a rollback, or else the unit that the strategy picks
                Ok(Some(transf)) => if state@.live[transf.0 as int].proc is Recv {
                    ran_receive(
                        state@,
                        transf.0 as int,
                        views(transf.1@),
                        minted_key(old(pctx).tags().prefix(), old(pctx).tags().count()),
                    ) && final(pctx).tags().count() == old(pctx).tags().count() + 1 && tier_empty(
                        state@,
                        Tier::AnySend,
                    ) && tier_empty(state@, Tier::Rollback)
                } else {
                    (ran_at_once(state@, old(pctx).comm().channel_pool.names(), r) || ran_at_last(
                        state@,
                        old(pctx).comm().channel_pool.names(),
                        r,
                    )) && final(pctx).tags().count() == old(pctx).tags().count()
                },
                // the unit picked at once failed, or else the search for a
                // receive
                Err(e) => (ran_at_once(state@, old(pctx).comm().channel_pool.names(), r) && final(pctx).tags().count() == old(pctx).tags().count()) || (tier_empty(state@, Tier::AnySend)
                    && tier_empty(state@, Tier::Rollback) && receive_failure(
                    state@,
                    old(pctx).comm().channel_pool.names(),
                    old(pctx).tags().count(),
                    final(pctx).tags().count(),
                    e,
                )),
            },
            // a send, or else a rollback, runs whatever waits on the
            // channels
            forall|tier: Tier, pos: int| #[trigger]
                picked_at_once(state@, tier, pos) ==> local_outcome(
                    state@,
                    pos,
                    old(pctx).comm().channel_pool.names(),
                    r,
                ),
            // without a receive the end runs, and never fails
            no_receive(state@) ==> forall|pos: int| #[trigger]
                picked_at_last(state@, pos) ==> local_outcome(
                    state@,
                    pos,
                    old(pctx).comm().channel_pool.names(),
                    r,
                ),
            // nothing to run: the strategy rests
            no_receive(state@) && tier_empty(state@, Tier::AnySend) && tier_empty(
                state@,
                Tier::Rollback,
            ) && tier_empty(state@, Tier::End) ==> r matches Ok(None),
            // without a send or a rollback the first receive is looked at
            // first: a channel that was never set up ends the search
            forall|j: int|
                tier_empty(state@, Tier::AnySend) && tier_empty(state@, Tier::Rollback)
                    && first_receive(state@, j) && !old(pctx).comm().channel_pool.names().contains(
                    channel_of(state@.live[j].proc),
                ) ==> r matches Err(ProtocolError::UnknownChannel),
    {
        if let Some(pos) = find_first(state, &Tier::AnySend) {
            assert(picked_at_once(state@, Tier::AnySend, pos as int));
            let r = self.run_local(pctx, state, pos);
            proof {
                lemma_picked_at_once(state@);
            }
            return r;
        }
        if let Some(pos) = find_first(state, &Tier::Rollback) {
            assert(picked_at_once(state@, Tier::Rollback, pos as int));
            let r = self.run_local(pctx, state, pos);
            proof {
                lemma_picked_at_once(state@);
            }
            return r;
        }
        proof {
            lemma_picked_at_once(state@);
        }
        match run_first_receive(&self.interpreter, pctx, state) {
            Err(e) => {
                return Err(e);
            },
            Ok(Some(transf)) => {
                return Ok(Some(transf));
            },
            Ok(None) => {},
        }
        if let Some(pos) = find_first(state, &Tier::End) {
            assert(picked_at_last(state@, pos as int));
            let r = self.run_local(pctx, state, pos);
            proof {
                assert forall|p2: int| #[trigger] picked_at_last(state@, p2) implies p2 == pos by {
                    assert(candidate(state@, Tier::End, p2));
                    assert(candidate(state@, Tier::End, pos as int));
                    if p2 < pos {
                        assert(!candidate(state@, Tier::End, p2));
                    } else if pos < p2 {
                        assert(!candidate(state@, Tier::End, pos as int));
                    }
                }
            }
            return r;
        }
        Ok(None)
    }

    /// This strategy never pauses.
    open spec fn slows(&self, unit: TaggedPrimProcView) -> bool {
        false
    }

    fn throttles(&self, unit: &TaggedPrimProc) -> (b: bool) {
        false
    }
}

} // verus!
