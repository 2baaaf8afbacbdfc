//! The strategy that runs what waits longest for others first: receives,
//! then rollbacks, then sends, then ends.

use super::tiers::{
    candidate, channel_of, find_first, first_in_tier, first_receive, local_outcome, no_receive, ran_receive,
    receive_failure, run_first_receive, run_local_unit, tier_empty, Tier,
};
use crate::rollpi::environment::components::actions::{
    ActionContext, ActionInterpreter, SimpleActionInterpreter,
};
use crate::rollpi::environment::components::picker::{PrimProcTransf, Strategy};
use crate::rollpi::environment::entities::participant::{ParticipantState, ParticipantStateView};
use crate::rollpi::environment::entities::party::PartyContext;
use crate::rollpi::environment::entities::tag_creator::minted_key;
use crate::rollpi::environment::types::ProtocolError;
use crate::rollpi::syntax::{
    views, PrimProcess, PrimProcessView, PrimeState, TaggedPrimProc, TaggedPrimProcView,
};
use crate::text::{has_prefix, starts_with};
use vstd::prelude::*;
use vstd::string::StringExecFns;

verus! {

/// Picks, in this order: the first receive for which a message waits, the
/// first rollback, the first send on a channel that begins with `comm`, the
/// first send on a channel that begins with `rec_norm`, the first send, the
/// first end; each among the live units that are not condemned.
pub struct SimpleOrderStrat {
    interpreter: Box<dyn ActionInterpreter>,
}

/// Whether the `i`-th live unit, of the kind `tier`, is what the order
/// picks where no receive can run: the first of its kind, with no candidate
/// of a kind that goes before.
pub open spec fn picked_in_order(s: ParticipantStateView, tier: Tier, i: int) -> bool {
    &&& first_in_tier(s, tier, i)
    &&& tier != Tier::Rollback ==> tier_empty(s, Tier::Rollback)
    &&& tier != Tier::Rollback && tier != Tier::CommSend ==> tier_empty(s, Tier::CommSend)
    &&& tier == Tier::AnySend || tier == Tier::End ==> tier_empty(s, Tier::NormSend)
    &&& tier == Tier::End ==> tier_empty(s, Tier::AnySend)
}

/// Whether the order finds nothing to pick among the units that need
/// nothing from outside.
pub open spec fn nothing_in_order(s: ParticipantStateView) -> bool {
    &&& tier_empty(s, Tier::Rollback)
    &&& tier_empty(s, Tier::CommSend)
    &&& tier_empty(s, Tier::NormSend)
    &&& tier_empty(s, Tier::AnySend)
    &&& tier_empty(s, Tier::End)
}

/// The order picks at most one unit.
pub proof fn lemma_picked_once(s: ParticipantStateView)
    ensures
        forall|t1: Tier, i1: int, t2: Tier, i2: int|
            #![trigger picked_in_order(s, t1, i1), picked_in_order(s, t2, i2)]
            picked_in_order(s, t1, i1) && picked_in_order(s, t2, i2) ==> t1 == t2 && i1 == i2,
{
    assert forall|t1: Tier, i1: int, t2: Tier, i2: int|
        #![trigger picked_in_order(s, t1, i1), picked_in_order(s, t2, i2)]
        picked_in_order(s, t1, i1) && picked_in_order(s, t2, i2) implies t1 == t2 && i1 == i2 by {
        assert(candidate(s, t1, i1));
        assert(candidate(s, t2, i2));
        if t1 == t2 {
            if i1 < i2 {
                assert(!candidate(s, t2, i1));
            } else if i2 < i1 {
                assert(!candidate(s, t1, i2));
            }
        }
    }
}

/// The unit that the order picks among those that need nothing from
/// outside, with its kind.
pub fn pick_in_order(state: &ParticipantState) -> (r: Option<(usize, Tier)>)
    ensures
        match r {
            Some((i, tier)) => picked_in_order(state@, tier, i as int),
            None => nothing_in_order(state@),
        },
{
    if let Some(i) = find_first(state, &Tier::Rollback) {
        return Some((i, Tier::Rollback));
    }
    if let Some(i) = find_first(state, &Tier::CommSend) {
        return Some((i, Tier::CommSend));
    }
    if let Some(i) = find_first(state, &Tier::NormSend) {
        return Some((i, Tier::NormSend));
    }
    if let Some(i) = find_first(state, &Tier::AnySend) {
        return Some((i, Tier::AnySend));
    }
    if let Some(i) = find_first(state, &Tier::End) {
        return Some((i, Tier::End));
    }
    None
}

impl SimpleOrderStrat {
    /// The strategy with the interpreter `interpreter`. The contract is
    /// empty: no clause on a value behind `Box<dyn ActionInterpreter>` could
    /// be proved.
    pub fn new(interpreter: Box<dyn ActionInterpreter>) -> Self {
        SimpleOrderStrat { interpreter }
    }
}

impl Default for SimpleOrderStrat {
    fn default() -> Self {
        SimpleOrderStrat { interpreter: Box::new(SimpleActionInterpreter {  }) }
    }
}

/// Whether `r` is what running the unit that the order picks, where no
/// receive runs, gives.
pub open spec fn ran_in_order(
    s: ParticipantStateView,
    names: Seq<Seq<char>>,
    r: Result<Option<PrimProcTransf>, ProtocolError>,
) -> bool {
    exists|tier: Tier, pos: int| #[trigger]
        picked_in_order(s, tier, pos) && local_outcome(s, pos, names, r)
}

impl Strategy for SimpleOrderStrat {
    fn run_strategy(&self, pctx: &mut PartyContext, state: &ParticipantState) -> (r: Result<
        Option<PrimProcTransf>,
        ProtocolError,
    >)
        ensures
            final(pctx).comm() == old(pctx).comm(),
            match r {
                // nothing ran: nothing could
                Ok(None) => nothing_in_order(state@) && *final(pctx) == *old(pctx),
                // a receive ran, under the next key, or else the unit that
                // the order picks
                Ok(Some(transf)) => if state@.live[transf.0 as int].proc is Recv {
                    ran_receive(
                        state@,
                        transf.0 as int,
                        views(transf.1@),
                        minted_key(old(pctx).tags().prefix(), old(pctx).tags().count()),
                    ) && final(pctx).tags().count() == old(pctx).tags().count() + 1
                } else {
                    ran_in_order(state@, old(pctx).comm().channel_pool.names(), r) && final(pctx).tags().count() == old(pctx).tags().count()
                },
                // the search for a receive failed, or else the unit that
                // the order picks
                Err(e) => receive_failure(
                    state@,
                    old(pctx).comm().channel_pool.names(),
                    old(pctx).tags().count(),
                    final(pctx).tags().count(),
                    e,
                ) || (ran_in_order(state@, old(pctx).comm().channel_pool.names(), r) && final(pctx).tags().count() == old(pctx).tags().count()),
            },
            // nothing to run: the strategy rests
            no_receive(state@) && nothing_in_order(state@) ==> r matches Ok(None),
            // without a receive the unit that the order picks runs: an end
            // and a rollback never fail
            no_receive(state@) ==> forall|tier: Tier, pos: int| #[trigger]
                picked_in_order(state@, tier, pos) ==> local_outcome(
                    state@,
                    pos,
                    old(pctx).comm().channel_pool.names(),
                    r,
                ),
            // the first receive is looked at first: a channel that was never
            // set up ends the search
            forall|j: int|
                first_receive(state@, j) && !old(pctx).comm().channel_pool.names().contains(
                    channel_of(state@.live[j].proc),
                ) ==> r matches Err(ProtocolError::UnknownChannel),
    {
        match run_first_receive(&self.interpreter, pctx, state) {
            Err(e) => {
                return Err(e);
            },
            Ok(Some(transf)) => {
                return Ok(Some(transf));
            },
            Ok(None) => {},
        }
        match pick_in_order(state) {
            None => Ok(None),
            Some((pos, tier)) => {
                let r = run_local_unit(&self.interpreter, pctx, state, pos);
                proof {
                    assert(picked_in_order(state@, tier, pos as int));
                    lemma_picked_once(state@);
                }
                r
            },
        }
    }

    /// A send on a channel that does not begin with `comm` is followed by a
    /// pause.
    open spec fn slows(&self, unit: TaggedPrimProcView) -> bool {
        unit.proc matches PrimProcessView::Send(ch, _) && !has_prefix(ch, seq!['c', 'o', 'm', 'm'])
    }

    fn throttles(&self, unit: &TaggedPrimProc) -> (b: bool) {
        proof {
            reveal_strlit("comm");
        }
        assert("comm"@ =~= seq!['c', 'o', 'm', 'm']);
        match &unit.proc {
            PrimProcess::Send(ch, _) => !starts_with(ch.0.as_str(), "comm"),
            _ => false,
        }
    }
}

/// The kind of a unit in a word or two: what it is and, for a send or a
/// receive, on which channel.
pub open spec fn unit_word(u: PrimProcessView) -> Seq<char> {
    match u {
        PrimProcessView::End => "End"@,
        PrimProcessView::RollK(_) => "Roll"@,
        PrimProcessView::Send(ch, _) => "Send "@ + ch,
        PrimProcessView::Recv(ch, _, _, _) => "Recv "@ + ch,
    }
}

/// The words of the first `n` live units, each after a dash.
pub open spec fn live_words(units: Seq<TaggedPrimProcView>, n: int) -> Seq<char>
    decreases n,
{
    if n <= 0 {
        Seq::empty()
    } else {
        live_words(units, n - 1) + "- "@ + unit_word(units[n - 1].proc) + " "@
    }
}

/// The words of the first `n` dead units, each before a dash.
pub open spec fn dead_words(units: Seq<TaggedPrimProcView>, n: int) -> Seq<char>
    decreases n,
{
    if n <= 0 {
        Seq::empty()
    } else {
        dead_words(units, n - 1) + unit_word(units[n - 1].proc) + " - "@
    }
}

/// The line that tells what a participant holds: its live units, then its
/// dead units.
pub open spec fn state_line(s: ParticipantStateView) -> Seq<char> {
    live_words(s.live, s.live.len() as int) + " xxx "@ + dead_words(s.dead, s.dead.len() as int)
        + " ||| \n"@
}

fn push_unit_word(line: &mut String, u: &PrimProcess)
    ensures
        final(line)@ == old(line)@ + unit_word(u@),
{
    match u {
        PrimProcess::End => {
            line.append("End");
        },
        PrimProcess::RollK(_) => {
            line.append("Roll");
        },
        PrimProcess::Send(ch, _) => {
            line.append("Send ");
            line.append(ch.0.as_str());
            assert(line@ =~= old(line)@ + unit_word(u@));
        },
        PrimProcess::Recv(ch, _, _, _) => {
            line.append("Recv ");
            line.append(ch.0.as_str());
            assert(line@ =~= old(line)@ + unit_word(u@));
        },
    }
}

/// The line that tells what a participant holds, for its log.
pub fn log_state(state: &ParticipantState) -> (line: String)
    ensures
        line@ == state_line(state@),
{
    let mut line = String::new();
    let mut i: usize = 0;
    assert(line@ =~= live_words(state@.live, 0));
    while i < state.live_state.len()
        invariant
            i <= state.live_state.len(),
            line@ == live_words(state@.live, i as int),
        decreases state.live_state.len() - i,
    {
        let ghost before = line@;
        assert(state.live_state[i as int]@ == state@.live[i as int]);
        line.append("- ");
        push_unit_word(&mut line, &state.live_state[i].proc);
        line.append(" ");
        assert(line@ =~= before + "- "@ + unit_word(state@.live[i as int].proc) + " "@);
        i += 1;
    }
    line.append(" xxx ");
    let ghost head = line@;
    let mut j: usize = 0;
    assert(line@ =~= head + dead_words(state@.dead, 0));
    while j < state.dead_state.len()
        invariant
            j <= state.dead_state.len(),
            line@ == head + dead_words(state@.dead, j as int),
        decreases state.dead_state.len() - j,
    {
        let ghost before = line@;
        assert(state.dead_state[j as int]@ == state@.dead[j as int]);
        push_unit_word(&mut line, &state.dead_state[j].proc);
        line.append(" - ");
        assert(line@ =~= head + (dead_words(state@.dead, j as int) + unit_word(
            state@.dead[j as int].proc,
        ) + " - "@));
        j += 1;
    }
    line.append(" ||| \n");
    assert(line@ =~= state_line(state@));
    line
}

/// Whether the unit `u` is part of the machinery of a recursion only: a
/// send on a channel that begins with `rec`, a receive on a channel that
/// begins with `rec_norm`, or neither a send nor a receive.
pub open spec fn only_recursion(u: PrimProcessView) -> bool {
    match u {
        PrimProcessView::Send(ch, _) => has_prefix(ch, seq!['r', 'e', 'c']),
        PrimProcessView::Recv(ch, _, _, _) => has_prefix(
            ch,
            seq!['r', 'e', 'c', '_', 'n', 'o', 'r', 'm'],
        ),
        _ => true,
    }
}

/// Whether nothing but the machinery of recursions is left among `state`:
/// the participant is as good as done.
pub fn check_for_non_rec_comm(state: &PrimeState) -> (done: bool)
    ensures
        done == (forall|i: int| 0 <= i < state.len() ==> only_recursion((#[trigger] state[i])@.proc)),
{
    proof {
        reveal_strlit("rec");
        reveal_strlit("rec_norm");
    }
    assert("rec"@ =~= seq!['r', 'e', 'c']);
    assert("rec_norm"@ =~= seq!['r', 'e', 'c', '_', 'n', 'o', 'r', 'm']);
    let mut i: usize = 0;
    while i < state.len()
        invariant
            i <= state.len(),
            "rec"@ == seq!['r', 'e', 'c'],
            "rec_norm"@ == seq!['r', 'e', 'c', '_', 'n', 'o', 'r', 'm'],
            forall|k: int| 0 <= k < i ==> only_recursion((#[trigger] state[k])@.proc),
        decreases state.len() - i,
    {
        let ok = match &state[i].proc {
            PrimProcess::Send(ch, _) => starts_with(ch.0.as_str(), "rec"),
            PrimProcess::Recv(ch, _, _, _) => starts_with(ch.0.as_str(), "rec_norm"),
            _ => true,
        };
        if !ok {
            return false;
        }
        i += 1;
    }
    true
}

} // verus!
