//! The kinds of units among which a strategy looks for the next one to run,
//! and the search for the first unit of a kind.

use crate::rollpi::environment::components::actions::{
    action_of, continuation, receive_action, ActionContext, ActionInterpreter,
};
use crate::rollpi::environment::components::picker::PrimProcTransf;
use crate::rollpi::environment::entities::participant::{ParticipantState, ParticipantStateView};
use crate::rollpi::environment::entities::party::PartyContext;
use crate::rollpi::environment::entities::tag_creator::minted_key;
use crate::rollpi::environment::types::ProtocolError;
use crate::rollpi::syntax::{
    views, PrimProcess, PrimProcessView, ProcessView, TaggedPrimProcView,
};
use crate::text::{has_prefix, starts_with};
use vstd::prelude::*;

verus! {

/// A kind of unit that needs nothing from outside to be picked.
#[derive(Debug, PartialEq, Eq)]
pub enum Tier {
    /// A rollback.
    Rollback,
    /// A send on a channel whose name begins with `comm`.
    CommSend,
    /// A send on a channel whose name begins with `rec_norm`.
    NormSend,
    /// Any send.
    AnySend,
    /// The inert unit.
    End,
}

/// Whether the `i`-th live unit of `s` may be scheduled: it exists and its
/// tag is not condemned.
pub open spec fn eligible(s: ParticipantStateView, i: int) -> bool {
    0 <= i < s.live.len() && !s.frozen.contains(s.live[i].tag)
}

/// Whether the unit `u` is of the kind `tier`.
pub open spec fn in_tier(u: PrimProcessView, tier: Tier) -> bool {
    match tier {
        Tier::Rollback => u is RollK,
        Tier::CommSend => u matches PrimProcessView::Send(ch, _) && has_prefix(
            ch,
            seq!['c', 'o', 'm', 'm'],
        ),
        Tier::NormSend => u matches PrimProcessView::Send(ch, _) && has_prefix(
            ch,
            seq!['r', 'e', 'c', '_', 'n', 'o', 'r', 'm'],
        ),
        Tier::AnySend => u is Send,
        Tier::End => u is End,
    }
}

/// Whether the `i`-th live unit may be scheduled and is of the kind `tier`.
pub open spec fn candidate(s: ParticipantStateView, tier: Tier, i: int) -> bool {
    eligible(s, i) && in_tier(s.live[i].proc, tier)
}

/// Whether the `i`-th live unit is the first candidate of the kind `tier`.
pub open spec fn first_in_tier(s: ParticipantStateView, tier: Tier, i: int) -> bool {
    candidate(s, tier, i) && forall|j: int| 0 <= j < i ==> !candidate(s, tier, j)
}

/// Whether there is no candidate of the kind `tier`.
pub open spec fn tier_empty(s: ParticipantStateView, tier: Tier) -> bool {
    forall|j: int| 0 <= j < s.live.len() ==> !candidate(s, tier, j)
}

/// Whether the `i`-th live unit is a receive that may be scheduled.
pub open spec fn receive_at(s: ParticipantStateView, i: int) -> bool {
    eligible(s, i) && s.live[i].proc is Recv
}

/// Whether the `i`-th live unit is the first receive that may be scheduled.
pub open spec fn first_receive(s: ParticipantStateView, i: int) -> bool {
    receive_at(s, i) && forall|j: int| 0 <= j < i ==> !receive_at(s, j)
}

/// Whether no receive may be scheduled.
pub open spec fn no_receive(s: ParticipantStateView) -> bool {
    forall|j: int| 0 <= j < s.live.len() ==> !receive_at(s, j)
}

/// The channel of the unit `u`, where it is a send or a receive.
pub open spec fn channel_of(u: PrimProcessView) -> Seq<char> {
    match u {
        PrimProcessView::Send(ch, _) => ch,
        PrimProcessView::Recv(ch, _, _, _) => ch,
        _ => Seq::empty(),
    }
}

/// Whether the unit `u` is of the kind `tier`.
pub fn unit_in_tier(u: &PrimProcess, tier: &Tier) -> (b: bool)
    ensures
        b == in_tier(u@, *tier),
{
    proof {
        reveal_strlit("comm");
        reveal_strlit("rec_norm");
    }
    assert("comm"@ =~= seq!['c', 'o', 'm', 'm']);
    assert("rec_norm"@ =~= seq!['r', 'e', 'c', '_', 'n', 'o', 'r', 'm']);
    match tier {
        Tier::Rollback => match u {
            PrimProcess::RollK(_) => true,
            _ => false,
        },
        Tier::CommSend => match u {
            PrimProcess::Send(ch, _) => starts_with(ch.0.as_str(), "comm"),
            _ => false,
        },
        Tier::NormSend => match u {
            PrimProcess::Send(ch, _) => starts_with(ch.0.as_str(), "rec_norm"),
            _ => false,
        },
        Tier::AnySend => match u {
            PrimProcess::Send(_, _) => true,
            _ => false,
        },
        Tier::End => match u {
            PrimProcess::End => true,
            _ => false,
        },
    }
}

/// The first live unit of the kind `tier` that may be scheduled.
pub fn find_first(state: &ParticipantState, tier: &Tier) -> (r: Option<usize>)
    ensures
        match r {
            Some(i) => first_in_tier(state@, *tier, i as int),
            None => tier_empty(state@, *tier),
        },
{
    let mut i: usize = 0;
    while i < state.live_state.len()
        invariant
            i <= state.live_state.len(),
            forall|j: int| 0 <= j < i ==> !candidate(state@, *tier, j),
        decreases state.live_state.len() - i,
    {
        let unit = &state.live_state[i];
        assert(unit@ == state@.live[i as int]);
        if !state.is_frozen(&unit.tag) && unit_in_tier(&unit.proc, tier) {
            return Some(i);
        }
        i += 1;
    }
    None
}

/// The first receive at or after `from` that may be scheduled.
pub fn next_receive(state: &ParticipantState, from: usize) -> (r: Option<usize>)
    ensures
        match r {
            Some(i) => from <= i < state@.live.len() && receive_at(state@, i as int) && forall|
                j: int,
            |
                from <= j < i ==> !receive_at(state@, j),
            None => forall|j: int| from <= j < state@.live.len() ==> !receive_at(state@, j),
        },
{
    let mut i: usize = from;
    while i < state.live_state.len()
        invariant
            from <= i,
            forall|j: int| from <= j < i && j < state@.live.len() ==> !receive_at(state@, j),
        decreases state.live_state.len() - i,
    {
        let unit = &state.live_state[i];
        assert(unit@ == state@.live[i as int]);
        let is_recv = match &unit.proc {
            PrimProcess::Recv(_, _, _, _) => true,
            _ => false,
        };
        if is_recv && !state.is_frozen(&unit.tag) {
            return Some(i);
        }
        i += 1;
    }
    None
}

/// Whether `units` are what the `i`-th live unit, a receive that may be
/// scheduled, leaves once it has taken some message under the key `key`:
/// the units of its continuation with the message put in.
pub open spec fn ran_receive(
    s: ParticipantStateView,
    i: int,
    units: Seq<TaggedPrimProcView>,
    key: Seq<char>,
) -> bool {
    &&& receive_at(s, i)
    &&& s.live[i].proc matches PrimProcessView::Recv(_, pv, tv, next) && exists|m: ProcessView|
        units == (#[trigger] continuation(next, pv, m, tv, key)).prime_state()
}

/// Whether every receive that may be scheduled among the first `n` live
/// units is on a channel of `names`.
pub open spec fn receives_known(s: ParticipantStateView, n: int, names: Seq<Seq<char>>) -> bool {
    forall|j: int| 0 <= j < n && receive_at(s, j) ==> names.contains(channel_of(s.live[j].proc))
}

/// Whether `e` is an error with which the search for a receive may end, for
/// a participant that had minted `before` keys and has minted `after` now:
/// an unknown channel, where some receive is on a channel of none of
/// `names`, with no key minted; no key left, with none minted; and, with one
/// key minted, a history that is disconnected or confirms another key, or a
/// continuation that is open.
pub open spec fn receive_failure(
    s: ParticipantStateView,
    names: Seq<Seq<char>>,
    before: nat,
    after: nat,
    e: ProtocolError,
) -> bool {
    &&& !no_receive(s)
    &&& if e == ProtocolError::UnknownChannel {
        after == before && !receives_known(s, s.live.len() as int, names)
    } else if e == ProtocolError::TagsExhausted {
        after == before && before >= usize::MAX
    } else {
        after == before + 1 && (e == ProtocolError::Disconnected || e
            == ProtocolError::ConfirmationMismatch || e == ProtocolError::OpenTerm)
    }
}

/// Looks at the receives that may be scheduled, in order, and runs the
/// first for which a message waits. A receive on a channel that was never
/// set up ends the search with an error; so does a receive that fails.
/// Without a message for any receive nothing runs and nothing changes.
pub fn run_first_receive(
    interpreter: &Box<dyn ActionInterpreter>,
    pctx: &mut PartyContext,
    state: &ParticipantState,
) -> (r: Result<Option<PrimProcTransf>, ProtocolError>)
    requires
        old(pctx).wf(),
    ensures
        final(pctx).wf(),
        final(pctx).id() == old(pctx).id(),
        final(pctx).comm() == old(pctx).comm(),
        final(pctx).tags().prefix() == old(pctx).tags().prefix(),
        match r {
            Ok(None) => *final(pctx) == *old(pctx) && receives_known(
                state@,
                state@.live.len() as int,
                old(pctx).comm().channel_pool.names(),
            ),
            Ok(Some(transf)) => {
                &&& transf.0 < state@.live.len()
                &&& ran_receive(
                    state@,
                    transf.0 as int,
                    views(transf.1@),
                    minted_key(old(pctx).tags().prefix(), old(pctx).tags().count()),
                )
                &&& final(pctx).tags().count() == old(pctx).tags().count() + 1
                &&& receives_known(
                    state@,
                    transf.0 + 1,
                    old(pctx).comm().channel_pool.names(),
                )
            },
            Err(e) => receive_failure(
                state@,
                old(pctx).comm().channel_pool.names(),
                old(pctx).tags().count(),
                final(pctx).tags().count(),
                e,
            ),
        },
        no_receive(state@) ==> r matches Ok(None),
        forall|j: int|
            first_receive(state@, j) && !old(pctx).comm().channel_pool.names().contains(
                channel_of(state@.live[j].proc),
            ) ==> r matches Err(ProtocolError::UnknownChannel),
{
    let ghost names = pctx.comm().channel_pool.names();
    let mut next = next_receive(state, 0);
    let ghost mut done: int = 0;
    while next.is_some()
        invariant
            pctx.wf(),
            *pctx == *old(pctx),
            names == old(pctx).comm().channel_pool.names(),
            0 <= done <= state@.live.len(),
            receives_known(state@, done, names),
            match next {
                Some(i) => done <= i < state@.live.len() && receive_at(state@, i as int) && forall|
                    j: int,
                |
                    done <= j < i ==> !receive_at(state@, j),
                None => forall|j: int| done <= j < state@.live.len() ==> !receive_at(state@, j),
            },
        decreases state@.live.len() - done,
    {
        let i = next.unwrap();
        let unit = &state.live_state[i];
        assert(unit@ == state@.live[i as int]);
        let ch_name = match &unit.proc {
            PrimProcess::Recv(ch_name, _, _, _) => ch_name,
            _ => vstd::pervasive::unreached(),
        };
        assert(channel_of(state@.live[i as int].proc) == ch_name@);
        match interpreter.probe_recv_channel(pctx, ch_name) {
            Err(e) => {
                assert(!names.contains(channel_of(state@.live[i as int].proc)));
                return Err(e);
            },
            Ok(None) => {},
            Ok(Some(comm)) => {
                let ghost m = comm.process@;
                let act = match receive_action(unit, comm) {
                    Some(a) => a,
                    None => vstd::pervasive::unreached(),
                };
                let ghost key = minted_key(pctx.tags().prefix(), pctx.tags().count());
                return match interpreter.interpret_action(pctx, (&unit.tag, act)) {
                    Err(e) => Err(e),
                    Ok(units) => {
                        proof {
                            let u = state@.live[i as int].proc;
                            assert(views(units@) == continuation(
                                u->Recv_3,
                                u->Recv_1,
                                m,
                                u->Recv_2,
                                key,
                            ).prime_state());
                            assert(ran_receive(state@, i as int, views(units@), key));
                        }
                        Ok(Some(PrimProcTransf(i, units)))
                    },
                };
            },
        }
        proof {
            done = i + 1;
        }
        assert(i < state.live_state.len());
        next = next_receive(state, i + 1);
    }
    Ok(None)
}

/// Whether `r` is what running the `pos`-th live unit, which is no
/// receive, gives: an end and a rollback leave nothing and never fail; a
/// send leaves nothing, fails on a channel of none of `names` as an unknown
/// channel, and fails on another channel only where that is disconnected.
pub open spec fn local_outcome(
    s: ParticipantStateView,
    pos: int,
    names: Seq<Seq<char>>,
    r: Result<Option<PrimProcTransf>, ProtocolError>,
) -> bool {
    match r {
        Ok(Some(transf)) => transf.0 == pos && views(transf.1@) == Seq::<TaggedPrimProcView>::empty()
            && (s.live[pos].proc is Send ==> names.contains(channel_of(s.live[pos].proc))),
        Ok(None) => false,
        Err(e) => s.live[pos].proc is Send && if names.contains(channel_of(s.live[pos].proc)) {
            e == ProtocolError::Disconnected
        } else {
            e == ProtocolError::UnknownChannel
        },
    }
}

/// Runs the `pos`-th live unit, which is no receive.
pub fn run_local_unit(
    interpreter: &Box<dyn ActionInterpreter>,
    pctx: &mut PartyContext,
    state: &ParticipantState,
    pos: usize,
) -> (r: Result<Option<PrimProcTransf>, ProtocolError>)
    requires
        old(pctx).wf(),
        pos < state@.live.len(),
        !(state@.live[pos as int].proc is Recv),
    ensures
        final(pctx).wf(),
        final(pctx).id() == old(pctx).id(),
        final(pctx).comm() == old(pctx).comm(),
        final(pctx).tags().prefix() == old(pctx).tags().prefix(),
        final(pctx).tags().count() == old(pctx).tags().count(),
        local_outcome(state@, pos as int, old(pctx).comm().channel_pool.names(), r),
{
    let unit = &state.live_state[pos];
    assert(unit@ == state@.live[pos as int]);
    let act = match action_of(unit) {
        Some(a) => a,
        None => vstd::pervasive::unreached(),
    };
    match interpreter.interpret_action(pctx, (&unit.tag, act)) {
        Err(e) => Err(e),
        Ok(units) => Ok(Some(PrimProcTransf(pos, units))),
    }
}

} // verus!
