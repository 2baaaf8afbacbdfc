//! What running one unit of work means.

use crate::rollpi::environment::channel::{recv, send, try_recv};
use crate::rollpi::environment::entities::causal_graph::{confirmation_of, confirmations_of};
use crate::rollpi::environment::entities::party::PartyContext;
use crate::rollpi::environment::entities::tag_creator::minted_key;
use crate::rollpi::environment::types::{
    MemoryPiece, MemoryPieceView, PartyComm, PartyCommView, ProtocolError,
};
use crate::rollpi::reductions::{lemma_closed_flatten, lemma_substitute_closed};
use crate::rollpi::syntax::{
    views, ChName, PrimProcess, PrimProcessView, PrimeState, ProcTag, ProcTagView, ProcVar,
    Process, ProcessView, TagKey, TagVar, TaggedPrimProc, TaggedPrimProcView, TaggedProcView,
};
use vstd::prelude::*;

verus! {

/// The continuation of a receive that bound `p_var` and `t_var`, once the
/// process `in_process` has arrived and the step has got the key `key`: the
/// continuation with both put in, tagged with `key`.
pub open spec fn continuation(
    next: ProcessView,
    p_var: Seq<char>,
    in_process: ProcessView,
    t_var: Seq<char>,
    key: Seq<char>,
) -> TaggedProcView {
    TaggedProcView {
        tag: ProcTagView::Key(key),
        proc: next.substitute(p_var, in_process, t_var, key),
    }
}

/// The second half of a receive, once the history has answered with
/// `confirmed`: the units that take the place of the receive. An answer
/// that is not the key `new_tag` of the step is a protocol violation.
pub fn finish_receive(
    next_proc: &Process,
    p_var: &ProcVar,
    in_process: &Process,
    t_var: &TagVar,
    new_tag: TagKey,
    confirmed: &TagKey,
) -> (r: Result<PrimeState, ProtocolError>)
    ensures
        match r {
            Ok(units) => {
                &&& confirmed@ == new_tag@
                &&& continuation(next_proc@, p_var@, in_process@, t_var@, new_tag@).splits()
                &&& views(units@) == continuation(
                    next_proc@,
                    p_var@,
                    in_process@,
                    t_var@,
                    new_tag@,
                ).prime_state()
            },
            Err(e) => if confirmed@ != new_tag@ {
                e == ProtocolError::ConfirmationMismatch
            } else {
                e == ProtocolError::OpenTerm && !continuation(
                    next_proc@,
                    p_var@,
                    in_process@,
                    t_var@,
                    new_tag@,
                ).splits()
            },
        },
{
    if !confirmed.same_as(&new_tag) {
        return Err(ProtocolError::ConfirmationMismatch);
    }
    let tagged = next_proc.clone().substitution_on_trigger(
        p_var.clone(),
        in_process,
        t_var.clone(),
        &new_tag,
    ).to_tagged_process(ProcTag::PTKey(new_tag));
    if !tagged.splits() {
        return Err(ProtocolError::OpenTerm);
    }
    Ok(tagged.to_prime_state())
}

/// The closed-term invariant of a receive: where the receive and the
/// process that arrives are closed, the continuation falls into units, and
/// each of them is closed again.
pub proof fn lemma_receive_closed(
    ch: Seq<char>,
    p_var: Seq<char>,
    t_var: Seq<char>,
    next: ProcessView,
    in_process: ProcessView,
    key: Seq<char>,
)
    requires
        ProcessView::Recv(ch, p_var, t_var, Box::new(next)).closed(),
        in_process.closed(),
    ensures
        continuation(next, p_var, in_process, t_var, key).splits(),
        forall|i: int|
            0 <= i < continuation(next, p_var, in_process, t_var, key).prime_state().len() ==> (
            #[trigger] continuation(
                next,
                p_var,
                in_process,
                t_var,
                key,
            ).prime_state()[i]).proc.to_process().closed(),
{
    let c = continuation(next, p_var, in_process, t_var, key);
    lemma_substitute_closed(ch, p_var, t_var, next, in_process, key);
    lemma_closed_flatten(c.proc);
    assert forall|i: int| 0 <= i < c.prime_state().len() implies (#[trigger] c.prime_state()[i]).proc.to_process().closed() by {
        let part = c.proc.flatten()[i];
        assert(part.closed() && part.is_prime());
        assert(c.prime_state()[i].proc == part.to_prime());
        assert(part.to_prime().to_process() == part);
    }
}

/// What is to be done with the unit that a strategy has picked.
#[derive(Debug)]
pub enum ActionContext<'a> {
    /// The inert unit.
    End,
    /// A rollback to the step with the given key.
    RollK(&'a TagKey),
    /// A send of the given process on the given channel.
    Send(&'a ChName, &'a Process),
    /// A receive on the given channel, with the message that has arrived
    /// for it, the two variables that it binds, and its continuation.
    RecvCont(PartyComm, ChName, &'a ProcVar, &'a TagVar, &'a Process),
}

/// An action with the tag of its unit.
pub type TaggedActionContext<'a> = (&'a ProcTag, ActionContext<'a>);

/// Whether `act` is the action of the unit `u`: the same kind, with the
/// same parts. For a receive the message may be any.
pub open spec fn is_action_of(act: ActionContext, u: PrimProcessView) -> bool {
    match act {
        ActionContext::End => u is End,
        ActionContext::RollK(k) => u == PrimProcessView::RollK(k@),
        ActionContext::Send(ch, p) => u == PrimProcessView::Send(ch@, p@),
        ActionContext::RecvCont(_, ch, p_var, t_var, next_proc) => u == PrimProcessView::Recv(
            ch@,
            p_var@,
            t_var@,
            next_proc@,
        ),
    }
}

/// The action of the unit `unit`, where it needs no message: an end, a
/// rollback or a send.
pub fn action_of<'a>(unit: &'a TaggedPrimProc) -> (r: Option<ActionContext<'a>>)
    ensures
        match r {
            Some(act) => !(unit@.proc is Recv) && !(act is RecvCont) && is_action_of(
                act,
                unit@.proc,
            ),
            None => unit@.proc is Recv,
        },
{
    match &unit.proc {
        PrimProcess::End => Some(ActionContext::End),
        PrimProcess::RollK(tag_key) => Some(ActionContext::RollK(tag_key)),
        PrimProcess::Send(ch_name, send_proc) => Some(ActionContext::Send(ch_name, send_proc)),
        PrimProcess::Recv(_, _, _, _) => None,
    }
}

/// The action of the unit `unit` with the message `comm`, where the unit
/// is a receive.
pub fn receive_action<'a>(unit: &'a TaggedPrimProc, comm: PartyComm) -> (r: Option<
    ActionContext<'a>,
>)
    ensures
        match r {
            Some(act) => unit@.proc is Recv && is_action_of(act, unit@.proc) && (
            act matches ActionContext::RecvCont(m, _, _, _, _) && m == comm),
            None => !(unit@.proc is Recv),
        },
{
    match &unit.proc {
        PrimProcess::Recv(ch_name, p_var, t_var, next_proc) => Some(
            ActionContext::RecvCont(comm, ch_name.clone(), p_var, t_var, next_proc),
        ),
        _ => None,
    }
}

/// The units that an action leaves in the place of its unit, where it
/// succeeds for a participant whose next key is `key`.
pub open spec fn action_outcome(act: ActionContext, key: Seq<char>) -> Seq<TaggedPrimProcView> {
    match act {
        ActionContext::RecvCont(in_data, _, p_var, t_var, next_proc) => continuation(
            next_proc@,
            p_var@,
            in_data.process@,
            t_var@,
            key,
        ).prime_state(),
        _ => Seq::empty(),
    }
}

/// What the participant `me` puts on a channel when its unit tagged `tag`
/// sends `payload`.
pub open spec fn send_message(me: Seq<char>, tag: ProcTagView, payload: ProcessView) -> PartyCommView {
    PartyCommView { sender_id: me, process: payload, tag }
}

/// What a participant asks of the history to roll back to the step with the
/// key `key`: that key, as an atomic tag.
pub open spec fn rollback_request(key: Seq<char>) -> ProcTagView {
    ProcTagView::Key(key)
}

/// The record that the participant `me` files with the history when its
/// unit tagged `recv_tag`, a receive on `ch` that binds `p_var` and `t_var`
/// and goes on as `next`, takes the message `in_data` under the key `key`:
/// the sender is the one of the message, with the send that it stood for;
/// the receiver is `me`, with the receive as it stood.
pub open spec fn receive_record(
    me: Seq<char>,
    in_data: PartyCommView,
    recv_tag: ProcTagView,
    ch: Seq<char>,
    p_var: Seq<char>,
    t_var: Seq<char>,
    next: ProcessView,
    key: Seq<char>,
) -> MemoryPieceView {
    MemoryPieceView {
        sender_id: in_data.sender_id,
        receiver_id: me,
        sender: TaggedProcView {
            tag: in_data.tag,
            proc: ProcessView::Send(ch, Box::new(in_data.process)),
        },
        receiver: TaggedProcView {
            tag: recv_tag,
            proc: ProcessView::Recv(ch, p_var, t_var, Box::new(next)),
        },
        new_mem_tag: key,
    }
}

/// Rendezvous confirmation: to the record that a receive files, the
/// history answers the receiver itself, with the key that the receive had
/// minted and no other; each record has one answer, in the order of the
/// records.
pub proof fn lemma_receive_confirmed(
    me: Seq<char>,
    in_data: PartyCommView,
    recv_tag: ProcTagView,
    ch: Seq<char>,
    p_var: Seq<char>,
    t_var: Seq<char>,
    next: ProcessView,
    key: Seq<char>,
    pieces: Seq<MemoryPieceView>,
)
    ensures
        confirmation_of(receive_record(me, in_data, recv_tag, ch, p_var, t_var, next, key)) == (
            me,
            key,
        ),
        confirmations_of(pieces).len() == pieces.len(),
        forall|i: int|
            0 <= i < pieces.len() ==> (#[trigger] confirmations_of(pieces)[i]).0
                == pieces[i].receiver_id && confirmations_of(pieces)[i].1 == pieces[i].new_mem_tag,
{
}

/// The message of a send.
pub fn message_of_send(me: &String, tag: &ProcTag, payload: &Process) -> (r: PartyComm)
    ensures
        r@ == send_message(me@, tag@, payload@),
{
    PartyComm::new(me.clone(), payload.clone(), tag.clone())
}

/// The request of a rollback.
pub fn request_of_rollback(key: &TagKey) -> (r: ProcTag)
    ensures
        r@ == rollback_request(key@),
{
    ProcTag::PTKey(key.clone())
}

/// The record of a receive.
pub fn record_of_receive(
    me: &String,
    in_data: &PartyComm,
    recv_tag: &ProcTag,
    ch: &ChName,
    p_var: &ProcVar,
    t_var: &TagVar,
    next: &Process,
    key: &TagKey,
) -> (r: MemoryPiece)
    ensures
        r@ == receive_record(me@, in_data@, recv_tag@, ch@, p_var@, t_var@, next@, key@),
        r@.paired(),
{
    MemoryPiece::new(
        (in_data.sender_id.clone(), me.clone()),
        (in_data.tag.clone(), (ch.clone(), in_data.process.clone())),
        (recv_tag.clone(), (ch.clone(), p_var.clone(), t_var.clone(), next.clone())),
        key.clone(),
    )
}

/// Whether what an action leaves can stand at top level: for a receive,
/// whether its continuation, with the message put in, falls into units.
pub open spec fn action_splits(act: ActionContext, key: Seq<char>) -> bool {
    match act {
        ActionContext::RecvCont(in_data, _, p_var, t_var, next_proc) => continuation(
            next_proc@,
            p_var@,
            in_data.process@,
            t_var@,
            key,
        ).splits(),
        _ => true,
    }
}

/// Whether an action that fails may fail with `e`: an end and a rollback
/// never fail; a send fails on a channel that was never set up or that is
/// disconnected; a receive fails where no key is left, where the history is
/// disconnected, where it confirms another key, or where the continuation
/// is open.
pub open spec fn may_fail_with(act: ActionContext, e: ProtocolError) -> bool {
    match act {
        ActionContext::End => false,
        ActionContext::RollK(_) => false,
        ActionContext::Send(_, _) => e == ProtocolError::UnknownChannel || e
            == ProtocolError::Disconnected,
        ActionContext::RecvCont(_, _, _, _, _) => e == ProtocolError::TagsExhausted || e
            == ProtocolError::Disconnected || e == ProtocolError::ConfirmationMismatch || e
            == ProtocolError::OpenTerm,
    }
}

/// How a participant runs the unit that its strategy has picked.
pub trait ActionInterpreter: Send {
    /// Runs the action. An end leaves nothing; a rollback asks the history
    /// for it and leaves nothing; a send puts the process on the channel and
    /// leaves nothing; a receive mints a key, files the rendezvous with the
    /// history, waits for the key to be confirmed and leaves the units of its
    /// continuation.
    fn interpret_action(&self, context: &mut PartyContext, ctx: TaggedActionContext) -> (r: Result<
        PrimeState,
        ProtocolError,
    >)
        requires
            old(context).wf(),
        ensures
            final(context).wf(),
            final(context).id() == old(context).id(),
            final(context).comm() == old(context).comm(),
            final(context).tags().prefix() == old(context).tags().prefix(),
            final(context).tags().count() == old(context).tags().count() + (if ctx.1 is RecvCont
                && old(context).tags().count() < usize::MAX {
                1nat
            } else {
                0nat
            }),
            match r {
                Ok(units) => views(units@) == action_outcome(
                    ctx.1,
                    minted_key(old(context).tags().prefix(), old(context).tags().count()),
                ),
                Err(e) => may_fail_with(ctx.1, e),
            },
            ctx.1 is End || ctx.1 is RollK ==> r is Ok,
            r matches Err(ProtocolError::UnknownChannel) <==> (ctx.1 matches ActionContext::Send(ch, _)
                && !old(context).comm().channel_pool.names().contains(ch@)),
            r matches Err(ProtocolError::TagsExhausted) <==> ctx.1 is RecvCont && old(
                context,
            ).tags().count() >= usize::MAX,
            r is Ok ==> action_splits(
                ctx.1,
                minted_key(old(context).tags().prefix(), old(context).tags().count()),
            ),
            r matches Err(ProtocolError::OpenTerm) ==> !action_splits(
                ctx.1,
                minted_key(old(context).tags().prefix(), old(context).tags().count()),
            ),
    ;

    /// The message that waits on the channel `ch`, if there is one now.
    fn probe_recv_channel(&self, context: &PartyContext, ch: &ChName) -> (r: Result<
        Option<PartyComm>,
        ProtocolError,
    >)
        requires
            context.wf(),
        ensures
            r is Err <==> !context.comm().channel_pool.names().contains(ch@),
            r matches Err(e) ==> e == ProtocolError::UnknownChannel,
    ;
}

/// The interpreter that does what the calculus says, and no more.
pub struct SimpleActionInterpreter {}

impl ActionInterpreter for SimpleActionInterpreter {
    fn interpret_action(&self, ctx: &mut PartyContext, act_ctx: TaggedActionContext) -> (r: Result<
        PrimeState,
        ProtocolError,
    >) {
        let (proc_tag, action) = act_ctx;
        match action {
            ActionContext::RollK(target_roll_key) => {
                let send_roll_ch = &ctx.get_comm_ctx().rollback_ctx.roll_tag_channel;
                let _ = send(send_roll_ch, request_of_rollback(target_roll_key));
                let r: PrimeState = Vec::new();
                assert(views(r@) =~= Seq::<TaggedPrimProcView>::empty());
                Ok(r)
            },
            ActionContext::Send(ch_name, proc) => {
                let sent = match ctx.get_comm_ctx().chan_msg_ctx(ch_name.0.as_str()) {
                    None => {
                        return Err(ProtocolError::UnknownChannel);
                    },
                    Some(chan) => send(
                        chan.send_channel,
                        message_of_send(ctx.get_id(), proc_tag, proc),
                    ),
                };
                if !sent {
                    return Err(ProtocolError::Disconnected);
                }
                let r: PrimeState = Vec::new();
                assert(views(r@) =~= Seq::<TaggedPrimProcView>::empty());
                Ok(r)
            },
            ActionContext::RecvCont(in_data, ch_name, p_var, t_var, next_proc) => {
                let new_tag = match ctx.create_tag() {
                    None => {
                        return Err(ProtocolError::TagsExhausted);
                    },
                    Some(t) => t,
                };
                let piece = record_of_receive(
                    ctx.get_id(),
                    &in_data,
                    proc_tag,
                    &ch_name,
                    p_var,
                    t_var,
                    next_proc,
                    &new_tag,
                );
                if !send(&ctx.get_comm_ctx().history_ctx.hist_tag_channel, piece) {
                    return Err(ProtocolError::Disconnected);
                }
                match recv(&ctx.get_comm_ctx().history_ctx.hist_conf_channel) {
                    None => Err(ProtocolError::Disconnected),
                    Some(rec_tag_key) => finish_receive(
                        next_proc,
                        p_var,
                        &in_data.process,
                        t_var,
                        new_tag,
                        &rec_tag_key,
                    ),
                }
            },
            ActionContext::End => {
                let r: PrimeState = Vec::new();
                assert(views(r@) =~= Seq::<TaggedPrimProcView>::empty());
                Ok(r)
            },
        }
    }

    fn probe_recv_channel(&self, context: &PartyContext, ch: &ChName) -> (r: Result<
        Option<PartyComm>,
        ProtocolError,
    >) {
        match context.get_comm_ctx().channel_pool.get_recv(ch.0.as_str()) {
            None => Err(ProtocolError::UnknownChannel),
            Some(recv_channel) => Ok(try_recv(recv_channel)),
        }
    }
}

} // verus!
