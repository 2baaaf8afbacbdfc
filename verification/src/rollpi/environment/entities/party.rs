//! What a participant needs besides its state: its id, its channels and its
//! counter of keys.

use super::participant::{
    disappear_of, evolved, freeze_all_of, froze, participant_round, ran_unit, resumable,
    resurrect_seq, took_up, ParticipantState, ParticipantStateView, RessurectMsg,
    RessurectMsgView,
};
use super::tag_creator::{minted_key, TagCreator};
use crate::rollpi::environment::channel::{
    drain, open_channel, send, share_receiver, share_sender,
};
use crate::rollpi::environment::components::picker::Strategy;
use crate::rollpi::environment::types::{MemoryPiece, PartyComm, ProtocolError};
use crate::rollpi::syntax::{
    lemma_views_push, names_contain, views, PrimeState, ProcTag, ProcTagView, TagKey,
    TaggedPrimProc, TaggedPrimProcView,
};
use crate::text::same_str;
use crossbeam::channel::{Receiver, Sender};
use vstd::prelude::*;

verus! {

/// One mailbox for each channel name, with both its ends.
pub struct PartyChPool {
    names: Vec<String>,
    senders: Vec<Sender<PartyComm>>,
    receivers: Vec<Receiver<PartyComm>>,
}

/// The two ends of the mailbox of one channel name.
pub struct ChMsgContext<'a> {
    pub send_channel: &'a Sender<PartyComm>,
    pub recv_channel: &'a Receiver<PartyComm>,
}

/// Where a participant sends the record of a rendezvous and gets the key
/// confirmed.
pub struct HistTagContext {
    pub hist_tag_channel: Sender<MemoryPiece>,
    pub hist_conf_channel: Receiver<TagKey>,
}

/// Where a participant asks for a rollback and gets freeze notices.
pub struct RollbackContext {
    pub roll_tag_channel: Sender<ProcTag>,
    pub freeze_not_channel: Receiver<ProcTag>,
}

/// Where a participant reports what has disappeared.
pub struct DissapearContext {
    pub diss_send_channel: Sender<ProcTag>,
}

/// Where a participant gets the units to take up again.
pub struct RessurectContext {
    pub ress_recv_channel: Receiver<RessurectMsg>,
}

/// All channels of one participant.
pub struct PartyCommCtx {
    pub channel_pool: PartyChPool,
    pub history_ctx: HistTagContext,
    pub rollback_ctx: RollbackContext,
    pub dissapear_ctx: DissapearContext,
    pub ressurect_ctx: RessurectContext,
}

/// What a strategy and an interpreter get to work with.
pub struct PartyContext {
    id: String,
    comm_ctx: PartyCommCtx,
    tag_ctx: TagCreator,
}

/// The names of `names`, each once, in the order in which they first
/// occur.
pub open spec fn distinct(names: Seq<Seq<char>>) -> Seq<Seq<char>>
    decreases names.len(),
{
    if names.len() == 0 {
        names
    } else {
        let before = distinct(names.drop_last());
        if before.contains(names.last()) {
            before
        } else {
            before.push(names.last())
        }
    }
}

/// The distinct names of a list hold no name twice and every name of the
/// list; a list that holds no name twice is left as it is.
pub proof fn lemma_distinct(names: Seq<Seq<char>>)
    ensures
        distinct(names).no_duplicates(),
        distinct(names).to_set() == names.to_set(),
        names.no_duplicates() ==> distinct(names) == names,
    decreases names.len(),
{
    if names.len() == 0 {
        assert(distinct(names).to_set() =~= names.to_set());
    } else {
        let front = names.drop_last();
        let x = names.last();
        let before = distinct(front);
        lemma_distinct(front);
        assert(names =~= front.push(x));
        assert forall|n: Seq<char>| distinct(names).to_set().contains(n) <==> names.to_set().contains(
            n,
        ) by {
            if distinct(names).contains(n) {
                let i = choose|i: int| 0 <= i < distinct(names).len() && distinct(names)[i] == n;
                if i < before.len() {
                    assert(before.contains(n));
                    assert(front.to_set().contains(n));
                    let j = choose|j: int| 0 <= j < front.len() && front[j] == n;
                    assert(names[j] == n);
                } else {
                    assert(names[names.len() - 1] == n);
                }
            }
            if names.contains(n) {
                let j = choose|j: int| 0 <= j < names.len() && names[j] == n;
                if j < front.len() {
                    assert(front[j] == n);
                    assert(front.to_set().contains(n));
                    assert(before.contains(n));
                    let i = choose|i: int| 0 <= i < before.len() && before[i] == n;
                    assert(distinct(names)[i] == n);
                } else if before.contains(x) {
                } else {
                    assert(distinct(names)[before.len() as int] == n);
                }
            }
        }
        assert(distinct(names).to_set() =~= names.to_set());
        if names.no_duplicates() {
            assert(front.no_duplicates());
            if before.contains(x) {
                let j = choose|j: int| 0 <= j < front.len() && front[j] == x;
                assert(names[j] == names[names.len() - 1]);
            }
        }
    }
}

impl PartyChPool {
    /// The invariant of the pool: no name twice, and both ends for each
    /// name.
    pub closed spec fn wf(&self) -> bool {
        &&& self.names.len() == self.senders.len()
        &&& self.names.len() == self.receivers.len()
        &&& views(self.names@).no_duplicates()
    }

    /// A pool that is in order holds one mailbox for each of its names.
    pub proof fn lemma_wf(&self)
        requires
            self.wf(),
        ensures
            self.names().no_duplicates(),
    {
    }

    /// The channel names of the pool.
    pub closed spec fn names(&self) -> Seq<Seq<char>> {
        views(self.names@)
    }

    /// A pool with one new mailbox for each name among `names`: a name that
    /// occurs again gets no second one.
    pub fn new(names: Vec<String>) -> (r: Self)
        ensures
            r.wf(),
            r.names() == distinct(views(names@)),
            r.names().no_duplicates(),
            r.names().to_set() == views(names@).to_set(),
            views(names@).no_duplicates() ==> r.names() == views(names@),
    {
        let ghost all = views(names@);
        let mut kept: Vec<String> = Vec::new();
        let mut senders: Vec<Sender<PartyComm>> = Vec::new();
        let mut receivers: Vec<Receiver<PartyComm>> = Vec::new();
        let mut i: usize = 0;
        assert(views(kept@) =~= distinct(all.take(0)));
        while i < names.len()
            invariant
                i <= names.len(),
                all == views(names@),
                senders.len() == kept.len(),
                receivers.len() == kept.len(),
                views(kept@) == distinct(all.take(i as int)),
            decreases names.len() - i,
        {
            proof {
                assert(all.take(i + 1).drop_last() =~= all.take(i as int));
                assert(all.take(i + 1).last() == names[i as int]@);
            }
            if !names_contain(&kept, &names[i]) {
                let c = names[i].clone();
                proof {
                    lemma_views_push(kept@, c);
                }
                kept.push(c);
                let (tx, rx) = open_channel::<PartyComm>();
                senders.push(tx);
                receivers.push(rx);
            }
            i += 1;
        }
        proof {
            assert(all.take(names.len() as int) =~= all);
            lemma_distinct(all);
        }
        PartyChPool { names: kept, senders, receivers }
    }

    fn position(&self, id: &str) -> (i: usize)
        ensures
            i <= self.names.len(),
            i < self.names.len() ==> self.names()[i as int] == id@,
            i == self.names.len() ==> !self.names().contains(id@),
    {
        let mut i: usize = 0;
        while i < self.names.len()
            invariant
                i <= self.names.len(),
                forall|j: int| 0 <= j < i ==> views(self.names@)[j] != id@,
            decreases self.names.len() - i,
        {
            if same_str(self.names[i].as_str(), id) {
                return i;
            }
            i += 1;
        }
        i
    }

    /// The receiving end of the mailbox named `id`, if there is one.
    pub fn get_recv(&self, id: &str) -> (r: Option<&Receiver<PartyComm>>)
        requires
            self.wf(),
        ensures
            r is Some <==> self.names().contains(id@),
    {
        let i = self.position(id);
        if i < self.names.len() {
            assert(self.names()[i as int] == id@);
            Some(&self.receivers[i])
        } else {
            None
        }
    }

    /// The sending end of the mailbox named `id`, if there is one.
    pub fn get_send(&self, id: &str) -> (r: Option<&Sender<PartyComm>>)
        requires
            self.wf(),
        ensures
            r is Some <==> self.names().contains(id@),
    {
        let i = self.position(id);
        if i < self.names.len() {
            assert(self.names()[i as int] == id@);
            Some(&self.senders[i])
        } else {
            None
        }
    }
}

impl Clone for PartyChPool {
    /// One more handle on the same mailboxes.
    fn clone(&self) -> (r: Self)
        ensures
            self.wf() ==> r.wf() && r.names() == self.names(),
    {
        let mut names: Vec<String> = Vec::new();
        let mut senders: Vec<Sender<PartyComm>> = Vec::new();
        let mut receivers: Vec<Receiver<PartyComm>> = Vec::new();
        if self.names.len() != self.senders.len() || self.names.len() != self.receivers.len() {
            return PartyChPool { names, senders, receivers };
        }
        let mut i: usize = 0;
        while i < self.names.len()
            invariant
                i <= self.names.len(),
                self.names.len() == self.senders.len(),
                self.names.len() == self.receivers.len(),
                names.len() == i,
                senders.len() == i,
                receivers.len() == i,
                views(names@) == views(self.names@).take(i as int),
            decreases self.names.len() - i,
        {
            let ghost before = names@;
            let n = self.names[i].clone();
            names.push(n);
            assert(views(names@) =~= views(self.names@).take(i + 1)) by {
                assert(views(names@) =~= views(before).push(n@));
            }
            senders.push(share_sender(&self.senders[i]));
            receivers.push(share_receiver(&self.receivers[i]));
            i += 1;
        }
        assert(views(self.names@).take(self.names.len() as int) =~= views(self.names@));
        PartyChPool { names, senders, receivers }
    }
}

impl PartyCommCtx {
    /// Both ends of the mailbox named `ch`, if there is one.
    pub fn chan_msg_ctx(&self, ch: &str) -> (r: Option<ChMsgContext>)
        requires
            self.channel_pool.wf(),
        ensures
            r is Some <==> self.channel_pool.names().contains(ch@),
    {
        match (self.channel_pool.get_send(ch), self.channel_pool.get_recv(ch)) {
            (Some(s), Some(r)) => Some(ChMsgContext { send_channel: s, recv_channel: r }),
            _ => None,
        }
    }
}

impl PartyContext {
    /// The id of the participant.
    pub closed spec fn id(&self) -> Seq<char> {
        self.id@
    }

    /// The counter of keys.
    pub closed spec fn tags(&self) -> TagCreator {
        self.tag_ctx
    }

    /// The channels.
    pub closed spec fn comm(&self) -> PartyCommCtx {
        self.comm_ctx
    }

    /// The invariant of the context: its pool of mailboxes is in order.
    pub open spec fn wf(&self) -> bool {
        self.comm().channel_pool.wf()
    }

    /// The context of the participant `id`, whose keys carry `id` as their
    /// prefix.
    pub fn new(id: String, comm_ctx: PartyCommCtx) -> (r: Self)
        ensures
            r.id() == id@,
            r.comm() == comm_ctx,
            r.tags().prefix() == id@,
            r.tags().count() == 0,
    {
        let tag_ctx = TagCreator::new(id.clone());
        PartyContext { id, comm_ctx, tag_ctx }
    }

    /// The id of the participant.
    pub fn get_id(&self) -> (r: &String)
        ensures
            r@ == self.id(),
    {
        &self.id
    }

    /// The channels.
    pub fn get_comm_ctx(&self) -> (r: &PartyCommCtx)
        ensures
            *r == self.comm(),
    {
        &self.comm_ctx
    }

    /// The next key, unless the counter is at its end.
    pub fn create_tag(&mut self) -> (r: Option<TagKey>)
        ensures
            final(self).id() == old(self).id(),
            final(self).comm() == old(self).comm(),
            final(self).tags().prefix() == old(self).tags().prefix(),
            r is Some <==> old(self).tags().count() < usize::MAX,
            match r {
                Some(tag) => {
                    &&& tag@ == minted_key(
                        old(self).tags().prefix(),
                        old(self).tags().count(),
                    )
                    &&& final(self).tags().count() == old(self).tags().count() + 1
                },
                None => final(self).tags() == old(self).tags() && old(self).tags().count()
                    >= usize::MAX,
            },
    {
        if self.tag_ctx.can_create() {
            Some(self.tag_ctx.create_new_tag())
        } else {
            None
        }
    }
}

/// How a participant is to go on after a step.
#[derive(Debug, PartialEq, Eq)]
pub enum Pace {
    /// At once.
    Proceed,
    /// After a pause, so that other work is not starved.
    Throttle,
    /// After a rest: nothing could run.
    Rest,
}

/// What one round of a participant did.
#[derive(Debug)]
pub struct Round {
    /// How the participant is to go on.
    pub pace: Pace,
    /// The unit that ran, if one did.
    pub ran: Option<TaggedPrimProc>,
    /// The tags that were condemned, in the order in which the notices came.
    pub frozen: Vec<ProcTag>,
    /// The tags that were reported as disappeared, in order.
    pub disappeared: Vec<ProcTag>,
    /// The messages whose units were taken up again, in order.
    pub resurrected: Vec<RessurectMsg>,
}

/// One participant: its state, its context and its strategy.
pub struct Participant {
    state: ParticipantState,
    party_context: PartyContext,
    strategy: Box<dyn Strategy>,
}

impl Participant {
    /// What the participant holds.
    pub closed spec fn state(&self) -> ParticipantStateView {
        self.state@
    }

    /// The context of the participant.
    pub closed spec fn context(&self) -> PartyContext {
        self.party_context
    }

    /// Whether the strategy of the participant asks for a pause after
    /// `unit`.
    pub closed spec fn slows(&self, unit: TaggedPrimProcView) -> bool {
        self.strategy.slows(unit)
    }

    /// Whether `after` is the state of the participant once its `pos`-th
    /// live unit has run and left `units`, and `pace` is how it is to go on:
    /// after a pause exactly where its strategy asks for one after that unit,
    /// and at once else.
    pub open spec fn ran_paced(
        &self,
        after: ParticipantStateView,
        pos: int,
        units: Seq<TaggedPrimProcView>,
        pace: Pace,
    ) -> bool {
        &&& ran_unit(self.state(), after, pos, units)
        &&& pace != Pace::Rest
        &&& pace == Pace::Throttle <==> self.slows(self.state().live[pos])
    }

    /// Whether `after` is the state of the participant once `unit`, one of
    /// its live units, has run, and `pace` is how it is to go on.
    pub open spec fn ran_this(
        &self,
        after: ParticipantStateView,
        unit: TaggedPrimProcView,
        pace: Pace,
    ) -> bool {
        exists|pos: int, units: Seq<TaggedPrimProcView>| #[trigger]
            self.ran_paced(after, pos, units, pace) && self.state().live[pos] == unit
    }

    /// Whether `round` tells what one round made of the participant, with
    /// `s1` as its state after the evolve step and `after` at the end: the
    /// unit that ran, if any, and the pace; the tags that were condemned; the
    /// tags that were reported as disappeared; and the messages whose units
    /// were taken up again.
    pub open spec fn round_from(
        &self,
        s1: ParticipantStateView,
        round: Round,
        after: ParticipantStateView,
    ) -> bool {
        let s2 = freeze_all_of(s1, views(round.frozen@));
        let s3 = disappear_of(s2);
        &&& match round.ran {
            None => round.pace == Pace::Rest && s1 == self.state(),
            Some(unit) => self.ran_this(s1, unit@, round.pace),
        }
        &&& views(round.disappeared@) == s3.reports
        &&& forall|i: int|
            0 <= i < round.resurrected.len() ==> resumable((#[trigger] round.resurrected[i])@)
        &&& after == resurrect_seq(
            s3.state,
            views(round.resurrected@),
            round.resurrected.len() as int,
        )
    }

    /// The invariant of the participant: its context is in order.
    pub open spec fn wf(&self) -> bool {
        self.context().wf()
    }

    /// The participant `id` that starts with the units `state` and runs
    /// `strategy`. Of the strategy the contract says nothing: no clause on a
    /// value behind `Box<dyn Strategy>` could be proved.
    pub fn new(id: String, state: PrimeState, strategy: Box<dyn Strategy>, comm_context: PartyCommCtx) -> (r:
        Self)
        requires
            comm_context.channel_pool.wf(),
        ensures
            r.wf(),
            r.context().id() == id@,
            r.context().tags().prefix() == id@,
            r.context().tags().count() == 0,
            r.context().comm() == comm_context,
            r.state().live == views(state@),
            r.state().dead == Seq::<TaggedPrimProcView>::empty(),
            r.state().frozen == Set::<ProcTagView>::empty(),
    {
        Participant {
            state: ParticipantState::new(state),
            strategy,
            party_context: PartyContext::new(id, comm_context),
        }
    }

    /// What the participant holds.
    pub fn get_state(&self) -> (r: &ParticipantState)
        ensures
            r@ == self.state(),
    {
        &self.state
    }

    /// The id of the participant.
    pub fn get_id(&self) -> (r: &String)
        ensures
            r@ == self.context().id(),
    {
        self.party_context.get_id()
    }

    /// The evolve step: lets the strategy run one unit and takes up the
    /// outcome. The result holds how the participant is to go on and the unit
    /// that ran. Where nothing could run the state stays as it is and the
    /// participant is to rest; where the strategy fails the state stays as it
    /// is as well.
    pub fn evolve_state(&mut self) -> (r: Result<(Pace, Option<TaggedPrimProc>), ProtocolError>)
        requires
            old(self).wf(),
        ensures
            final(self).wf(),
            final(self).context().id() == old(self).context().id(),
            final(self).context().tags().prefix() == old(self).context().tags().prefix(),
            final(self).context().tags().count() >= old(self).context().tags().count(),
            final(self).state().frozen == old(self).state().frozen,
            match r {
                Ok((pace, None)) => pace == Pace::Rest && final(self).state() == old(self).state(),
                Ok((pace, Some(unit))) => old(self).ran_this(final(self).state(), unit@, pace),
                Err(_) => final(self).state() == old(self).state(),
            },
    {
        let action = self.strategy.run_strategy(&mut self.party_context, &self.state);
        match action {
            Err(e) => Err(e),
            Ok(None) => Ok((Pace::Rest, None)),
            Ok(Some(transf)) => {
                let unit = self.state.live_state[transf.0].clone();
                let slow = self.strategy.throttles(&unit);
                let ghost pos = transf.0 as int;
                let ghost units = views(transf.1@);
                assert(unit@ == self.state().live[pos]);
                self.state.apply(transf);
                let pace = if slow {
                    Pace::Throttle
                } else {
                    Pace::Proceed
                };
                assert(old(self).ran_paced(self.state(), pos, units, pace));
                assert(old(self).ran_this(self.state(), unit@, pace));
                Ok((pace, Some(unit)))
            },
        }
    }

    /// The freeze step: every tag for which a notice has come is condemned.
    /// The result holds these tags, in the order in which they came.
    pub fn freeze_logic(&mut self) -> (tags: Vec<ProcTag>)
        requires
            old(self).wf(),
        ensures
            final(self).wf(),
            final(self).context() == old(self).context(),
            final(self).state() == freeze_all_of(old(self).state(), views(tags@)),
    {
        let tags = drain(&self.party_context.get_comm_ctx().rollback_ctx.freeze_not_channel);
        self.state.freeze_all(&tags);
        assert(self.state@ == freeze_all_of(old(self).state(), views(tags@)));
        tags
    }

    /// The disappear step: what is condemned leaves, and the history is
    /// told. The result holds the tags reported, in order.
    pub fn dissapear_logic(&mut self) -> (reports: Vec<ProcTag>)
        requires
            old(self).wf(),
        ensures
            final(self).wf(),
            final(self).context() == old(self).context(),
            final(self).state() == disappear_of(old(self).state()).state,
            views(reports@) == disappear_of(old(self).state()).reports,
    {
        let reports = self.state.disappear();
        let ghost after = self.state;
        let mut i: usize = 0;
        while i < reports.len()
            invariant
                self.state == after,
                self.party_context == old(self).party_context,
            decreases reports.len() - i,
        {
            let _ = send(
                &self.party_context.get_comm_ctx().dissapear_ctx.diss_send_channel,
                reports[i].clone(),
            );
            i += 1;
        }
        reports
    }

    /// The resurrect step: every unit that the history has sent back is
    /// taken up again, in the order in which they came. The result holds the
    /// messages that came. A unit that is neither a send nor a receive ends
    /// the step with an error; what came before it is taken up.
    pub fn ressurect_logic(&mut self) -> (r: Result<Vec<RessurectMsg>, ProtocolError>)
        requires
            old(self).wf(),
        ensures
            final(self).wf(),
            final(self).context() == old(self).context(),
            match r {
                Ok(msgs) => final(self).state() == resurrect_seq(
                    old(self).state(),
                    views(msgs@),
                    msgs.len() as int,
                ) && forall|i: int| 0 <= i < msgs.len() ==> resumable((#[trigger] msgs[i])@),
                Err(e) => e == ProtocolError::NotResumable && took_up(
                    old(self).state(),
                    final(self).state(),
                    false,
                ),
            },
            took_up(old(self).state(), final(self).state(), r is Ok),
            final(self).state().dead == old(self).state().dead,
            final(self).state().frozen.subset_of(old(self).state().frozen),
    {
        let msgs = drain(&self.party_context.get_comm_ctx().ressurect_ctx.ress_recv_channel);
        let ghost s0 = self.state@;
        let ghost all = views(msgs@);
        let r = self.state.resurrect_all(&msgs);
        proof {
            lemma_resurrect_seq_keeps(s0, all, msgs.len() as int);
            assert forall|i: int| 0 <= i < msgs.len() implies all[i] == (#[trigger] msgs[i])@ by {}
            if r is Err {
                let k = choose|k: int|
                    0 <= k < msgs.len() && !resumable((#[trigger] msgs[k])@) && (forall|i: int|
                        0 <= i < k ==> resumable((#[trigger] msgs[i])@)) && self.state@
                        == resurrect_seq(s0, all, k);
                lemma_resurrect_seq_keeps(s0, all, k);
                assert forall|i: int| 0 <= i < k implies resumable(#[trigger] all[i]) by {
                    assert(resumable(msgs[i]@));
                }
                assert(!resumable(all[k]));
                assert(self.state@ == resurrect_seq(s0, all, k));
            } else {
                assert forall|i: int| 0 <= i < all.len() implies resumable(#[trigger] all[i]) by {
                    assert(resumable(msgs[i]@));
                }
                assert(self.state@ == resurrect_seq(s0, all, all.len() as int));
            }
        }
        match r {
            Err(e) => Err(e),
            Ok(_) => Ok(msgs),
        }
    }

    /// One round of the participant: evolve, freeze, disappear, resurrect.
    /// The result tells what the round did. Where the evolve step fails,
    /// the round ends there and the state stays as it is; where the
    /// resurrect step fails, the round ends with what that step had taken up.
    pub fn step(&mut self) -> (r: Result<Round, ProtocolError>)
        requires
            old(self).wf(),
        ensures
            final(self).wf(),
            final(self).context().id() == old(self).context().id(),
            final(self).context().tags().prefix() == old(self).context().tags().prefix(),
            final(self).context().tags().count() >= old(self).context().tags().count(),
            match r {
                Ok(round) => exists|s1: ParticipantStateView| #[trigger]
                    old(self).round_from(s1, round, final(self).state()),
                Err(e) => final(self).state() == old(self).state() || (e
                    == ProtocolError::NotResumable && participant_round(
                    old(self).state(),
                    final(self).state(),
                    false,
                )),
            },
            r is Ok ==> participant_round(old(self).state(), final(self).state(), true),
    {
        let ghost s0 = self.state();
        let (pace, ran) = match self.evolve_state() {
            Err(e) => {
                return Err(e);
            },
            Ok(p) => p,
        };
        let ghost s1 = self.state();
        assert(evolved(s0, s1));
        let frozen = self.freeze_logic();
        let ghost s2 = self.state();
        assert(froze(s1, s2));
        let disappeared = self.dissapear_logic();
        let r = self.ressurect_logic();
        proof {
            assert(evolved(s0, s1) && froze(s1, s2) && took_up(
                disappear_of(s2).state,
                self.state(),
                r is Ok,
            ));
        }
        match r {
            Err(e) => Err(e),
            Ok(resurrected) => {
                let round = Round { pace, ran, frozen, disappeared, resurrected };
                assert(old(self).round_from(s1, round, self.state()));
                Ok(round)
            },
        }
    }
}

/// Taking units up again touches neither the dead units nor condemns
/// anything.
proof fn lemma_resurrect_seq_keeps(
    s: ParticipantStateView,
    msgs: Seq<RessurectMsgView>,
    n: int,
)
    ensures
        resurrect_seq(s, msgs, n).dead == s.dead,
        resurrect_seq(s, msgs, n).frozen.subset_of(s.frozen),
    decreases n,
{
    if n > 0 {
        lemma_resurrect_seq_keeps(s, msgs, n - 1);
    }
}

} // verus!
