//! The history: the one place that holds the causal graph, confirms keys,
//! spreads rollbacks and sends back the units that a rollback has orphaned.

use super::batches::{
    condemns_unheard, deliverable, lemma_newly_frozen_fresh, lemma_retire_batch,
    lemma_retire_batch_ends, lemma_rollback_batch, lemma_rollback_batch_ends, outcome_of,
    retire_batch, rollback_batch, round_of,
};
use super::causal_graph::{
    confirmation_of, confirmations_of, empty_graph, history_round, notice_tags, record_all,
    recorded, retire_all, retired, rolled_back, CausalGraph, CausalGraphView, Confirmation,
    FreezeNotice, HistoryError, RessurectNotice,
};
pub use super::participant::RessurectMsg;
use crate::rollpi::environment::channel::{drain, send};
use crate::rollpi::environment::types::{MemoryPiece, MemoryPieceView};
use crate::rollpi::syntax::{lemma_views_push, views, ProcTag, ProcTagView, TagKey};
use crossbeam::channel::{Receiver, Sender};
use vstd::pervasive::unreached;
use vstd::prelude::*;
use vstd::seq_lib::lemma_no_dup_in_concat;

verus! {

/// The channels of the history: for each participant, by its id, one to
/// get records from and one to confirm keys on, one to get rollback requests
/// from and one to send freeze notices on, and one to send units back on;
/// and the one on which all participants report what has disappeared.
pub struct HistoryContext {
    pub hist_tag_recv: Vec<(String, Receiver<MemoryPiece>)>,
    pub hist_not_send: Vec<(String, Sender<TagKey>)>,
    pub roll_tag_recv: Vec<(String, Receiver<ProcTag>)>,
    pub roll_frz_send: Vec<(String, Sender<ProcTag>)>,
    pub diss_tag_recv: Receiver<ProcTag>,
    pub ress_tag_send: Vec<(String, Sender<RessurectMsg>)>,
}

impl HistoryContext {
    /// The context of a history without participants.
    pub fn new(arg_diss_tag_recv: Receiver<ProcTag>) -> (r: Self)
        ensures
            r.hist_tag_recv@.len() == 0,
            r.hist_not_send@.len() == 0,
            r.roll_tag_recv@.len() == 0,
            r.roll_frz_send@.len() == 0,
            r.ress_tag_send@.len() == 0,
            r.diss_tag_recv == arg_diss_tag_recv,
    {
        HistoryContext {
            hist_tag_recv: Vec::new(),
            hist_not_send: Vec::new(),
            roll_tag_recv: Vec::new(),
            roll_frz_send: Vec::new(),
            diss_tag_recv: arg_diss_tag_recv,
            ress_tag_send: Vec::new(),
        }
    }
}

/// The participants for which `list` has an entry.
pub open spec fn entry_ids<T>(list: Seq<(String, T)>) -> Set<Seq<char>> {
    Set::new(|id: Seq<char>| has_entry(list, id))
}

/// The participants of the entries of `list`, in order.
pub open spec fn entry_names<T>(list: Seq<(String, T)>) -> Seq<Seq<char>> {
    Seq::new(list.len(), |i: int| list[i].0@)
}

/// The participants for which `list` has an entry are those that
/// `entry_names` lists.
pub proof fn lemma_entry_ids<T>(list: Seq<(String, T)>)
    ensures
        entry_ids(list) == entry_names(list).to_set(),
{
    let names = entry_names(list);
    assert forall|id: Seq<char>| entry_ids(list).contains(id) <==> names.to_set().contains(id) by {
        if has_entry(list, id) {
            let i = choose|i: int| 0 <= i < list.len() && (#[trigger] list[i]).0@ == id;
            assert(names[i] == id);
        }
        if names.contains(id) {
            let i = choose|i: int| 0 <= i < names.len() && names[i] == id;
            assert(list[i].0@ == id);
        }
    }
    assert(entry_ids(list) =~= names.to_set());
}

/// Whether `list` has an entry for the participant `id`.
pub open spec fn has_entry<T>(list: Seq<(String, T)>, id: Seq<char>) -> bool {
    exists|i: int| 0 <= i < list.len() && (#[trigger] list[i]).0@ == id
}

/// The first entry of `list` for the participant `id`.
pub fn entry_of<'a, T>(list: &'a Vec<(String, T)>, id: &String) -> (r: Option<&'a T>)
    ensures
        match r {
            Some(x) => exists|i: int|
                0 <= i < list.len() && (#[trigger] list[i]).0@ == id@ && list[i].1 == *x && (
                forall|j: int| 0 <= j < i ==> (#[trigger] list[j]).0@ != id@),
            None => !has_entry(list@, id@),
        },
{
    let mut i: usize = 0;
    while i < list.len()
        invariant
            i <= list.len(),
            forall|j: int| 0 <= j < i ==> (#[trigger] list[j]).0@ != id@,
        decreases list.len() - i,
    {
        if list[i].0 == *id {
            return Some(&list[i].1);
        }
        i += 1;
    }
    None
}

/// All messages that have come on the channels of `list`, in the order of
/// the list and, for each channel, in the order in which they came.
fn drain_all<T>(list: &Vec<(String, Receiver<T>)>) -> (r: Vec<T>)
    ensures
        list@.len() == 0 ==> r@.len() == 0,
{
    let mut all: Vec<T> = Vec::new();
    let mut p: usize = 0;
    while p < list.len()
        invariant
            list@.len() == 0 ==> all@.len() == 0,
        decreases list.len() - p,
    {
        let mut got = drain(&list[p].1);
        all.append(&mut got);
        p += 1;
    }
    all
}

/// Whether the owner of each of `notices` has an entry in `list`.
fn all_heard<T>(list: &Vec<(String, T)>, notices: &Vec<FreezeNotice>) -> (b: bool)
    ensures
        b == forall|i: int| 0 <= i < notices.len() ==> has_entry(list@, (#[trigger] notices[i]).to@),
{
    let mut i: usize = 0;
    while i < notices.len()
        invariant
            i <= notices.len(),
            forall|j: int| 0 <= j < i ==> has_entry(list@, (#[trigger] notices[j]).to@),
        decreases notices.len() - i,
    {
        if entry_of(list, &notices[i].to).is_none() {
            return false;
        }
        i += 1;
    }
    true
}

/// Filing records condemns nothing.
pub proof fn lemma_record_all_frozen(g: CausalGraphView, pieces: Seq<MemoryPieceView>)
    ensures
        record_all(g, pieces).frozen == g.frozen,
    decreases pieces.len(),
{
    if pieces.len() > 0 {
        lemma_record_all_frozen(g, pieces.drop_last());
    }
}

/// The history.
pub struct HistoryParticipant {
    ctx: HistoryContext,
    graph: CausalGraph,
}

impl HistoryParticipant {
    /// The causal graph of the history.
    pub closed spec fn graph(&self) -> CausalGraphView {
        self.graph@
    }

    /// The channels of the history.
    pub closed spec fn context(&self) -> HistoryContext {
        self.ctx
    }

    /// The invariant of the history: its graph is in order.
    pub closed spec fn wf(&self) -> bool {
        self.graph.wf()
    }

    /// The history with the channels `h_ctx` and nothing on record.
    pub fn new(h_ctx: HistoryContext) -> (r: Self)
        ensures
            r.wf(),
            r.context() == h_ctx,
            r.graph() == empty_graph(),
    {
        HistoryParticipant { ctx: h_ctx, graph: CausalGraph::new() }
    }

    /// The causal graph of the history.
    pub fn get_graph(&self) -> (r: &CausalGraph)
        ensures
            r@ == self.graph(),
            self.wf() ==> r.wf(),
    {
        &self.graph
    }

    /// Files the records `pieces`, in order. The result holds the
    /// confirmations to send, in order: for each record whose receiver has
    /// a channel, the key of the step, for the receiver.
    pub fn file_records(&mut self, pieces: Vec<MemoryPiece>) -> (owed: Vec<Confirmation>)
        requires
            old(self).wf(),
        ensures
            final(self).wf(),
            final(self).context() == old(self).context(),
            final(self).graph() == record_all(old(self).graph(), views(pieces@)),
            views(owed@) == deliverable(
                confirmations_of(views(pieces@)),
                entry_ids(old(self).context().hist_not_send@),
            ),
            forall|i: int|
                0 <= i < owed.len() ==> has_entry(
                    old(self).context().hist_not_send@,
                    (#[trigger] owed[i]).to@,
                ),
    {
        let ghost g0 = self.graph();
        let ghost all = views(pieces@);
        let ghost ids = entry_ids(self.ctx.hist_not_send@);
        let ghost mut done: Seq<MemoryPieceView> = Seq::empty();
        let mut pieces = pieces;
        let mut owed: Vec<Confirmation> = Vec::new();
        proof {
            assert(done + views(pieces@) =~= all);
            assert(views(owed@) =~= deliverable(confirmations_of(done), ids));
        }
        while pieces.len() > 0
            invariant
                self.ctx == old(self).ctx,
                self.wf(),
                ids == entry_ids(self.ctx.hist_not_send@),
                done + views(pieces@) == all,
                self.graph() == record_all(g0, done),
                views(owed@) == deliverable(confirmations_of(done), ids),
                forall|i: int|
                    0 <= i < owed.len() ==> has_entry(
                        self.ctx.hist_not_send@,
                        (#[trigger] owed[i]).to@,
                    ),
            decreases pieces.len(),
        {
            let ghost rest = views(pieces@);
            let piece = pieces.remove(0);
            let ghost before = done;
            proof {
                assert(piece@ == rest[0]);
                assert(views(pieces@) =~= rest.drop_first());
                done = done.push(piece@);
                assert(done.drop_last() =~= before);
                assert(done + views(pieces@) =~= before + rest);
                assert(confirmations_of(done) =~= confirmations_of(before).push(
                    confirmation_of(piece@),
                ));
                assert(confirmations_of(done).drop_last() =~= confirmations_of(before));
            }
            let conf = self.graph.record(piece);
            match entry_of(&self.ctx.hist_not_send, &conf.to) {
                Some(_) => {
                    let ghost kept = owed@;
                    proof {
                        lemma_views_push(kept, conf);
                    }
                    owed.push(conf);
                    assert forall|i: int| 0 <= i < owed.len() implies has_entry(
                        self.ctx.hist_not_send@,
                        (#[trigger] owed[i]).to@,
                    ) by {
                        if i < kept.len() {
                            assert(owed[i] == kept[i]);
                        }
                    }
                },
                None => {},
            }
        }
        proof {
            assert(views(pieces@) =~= Seq::<MemoryPieceView>::empty());
            assert(done =~= all);
        }
        owed
    }

    /// Takes the rollback requests `requests`, in order, as `rollback_batch`
    /// says. The result holds one freeze notice for each tag of which an
    /// owner is to be told, for that owner, and the error that ended the
    /// run, if one did.
    pub fn spread_rollbacks(&mut self, requests: Vec<ProcTag>) -> (r: (
        Vec<FreezeNotice>,
        Result<(), HistoryError>,
    ))
        requires
            old(self).wf(),
        ensures
            final(self).wf(),
            final(self).context() == old(self).context(),
            ({
                let b = rollback_batch(
                    old(self).graph(),
                    entry_ids(old(self).context().roll_frz_send@),
                    views(requests@),
                );
                &&& final(self).graph() == b.graph
                &&& r.1 == outcome_of(b.error)
                &&& notice_tags(r.0@).to_set() == b.told
            }),
            notice_tags(r.0@).no_duplicates(),
            forall|i: int|
                0 <= i < r.0.len() ==> {
                    let n = #[trigger] r.0[i];
                    &&& old(self).graph().owner.dom().contains(n.tag@)
                    &&& n.to@ == old(self).graph().owner[n.tag@]
                    &&& has_entry(old(self).context().roll_frz_send@, n.to@)
                },
    {
        let ghost g0 = self.graph();
        let ghost all = views(requests@);
        let ghost ids = entry_ids(self.ctx.roll_frz_send@);
        let ghost mut done: Seq<ProcTagView> = Seq::empty();
        let mut queue = requests;
        let mut out: Vec<FreezeNotice> = Vec::new();
        proof {
            assert(done + views(queue@) =~= all);
            assert(notice_tags(out@).to_set() =~= Set::<ProcTagView>::empty());
        }
        while queue.len() > 0
            invariant
                self.ctx == old(self).ctx,
                self.wf(),
                g0 == old(self).graph(),
                all == views(requests@),
                ids == entry_ids(self.ctx.roll_frz_send@),
                done + views(queue@) == all,
                rollback_batch(g0, ids, done).error is None,
                rollback_batch(g0, ids, done).graph == self.graph(),
                rollback_batch(g0, ids, done).told == notice_tags(out@).to_set(),
                notice_tags(out@).no_duplicates(),
                forall|i: int|
                    0 <= i < out.len() ==> {
                        let n = #[trigger] out[i];
                        &&& g0.owner.dom().contains(n.tag@)
                        &&& n.to@ == g0.owner[n.tag@]
                        &&& has_entry(self.ctx.roll_frz_send@, n.to@)
                    },
            decreases queue.len(),
        {
            let ghost rest = views(queue@);
            let ghost h = self.graph();
            let tag = queue.remove(0);
            let ghost t = tag@;
            let ghost before = done;
            proof {
                assert(t == rest[0]);
                assert(views(queue@) =~= rest.drop_first());
                done = done.push(t);
                assert(done.drop_last() =~= before);
                assert(done + views(queue@) =~= before + rest);
                lemma_rollback_batch(g0, ids, before);
                lemma_newly_frozen_fresh(h, t);
            }
            let mut notices = match self.graph.rollback(tag) {
                Err(e) => {
                    proof {
                        lemma_rollback_batch_ends(g0, ids, done, views(queue@));
                    }
                    return (out, Err(e));
                },
                Ok(n) => n,
            };
            let ghost fresh = notice_tags(notices@);
            if !all_heard(&self.ctx.roll_frz_send, &notices) {
                proof {
                    let i = choose|i: int|
                        0 <= i < notices.len() && !has_entry(
                            self.ctx.roll_frz_send@,
                            (#[trigger] notices[i]).to@,
                        );
                    assert(fresh[i] == notices[i].tag@);
                    assert(fresh.to_set().contains(fresh[i]));
                    assert(h.owner_missing(notices[i].tag@, ids));
                    assert(condemns_unheard(h, t, ids));
                    lemma_rollback_batch_ends(g0, ids, done, views(queue@));
                }
                return (out, Err(HistoryError::UnknownParticipant));
            }
            proof {
                assert(!condemns_unheard(h, t, ids)) by {
                    assert forall|n: ProcTagView| h.newly_frozen(t).contains(n) implies !(
                    #[trigger] h.owner_missing(n, ids)) by {
                        assert(fresh.to_set().contains(n));
                        let i = choose|i: int| 0 <= i < fresh.len() && fresh[i] == n;
                        assert(notices[i].tag@ == n);
                        assert(has_entry(self.ctx.roll_frz_send@, notices[i].to@));
                    }
                }
            }
            let ghost kept = out@;
            let ghost added = notices@;
            out.append(&mut notices);
            proof {
                let a = notice_tags(kept);
                assert(notice_tags(out@) =~= a + fresh);
                assert forall|i: int, j: int| 0 <= i < a.len() && 0 <= j < fresh.len() implies a[i]
                    != fresh[j] by {
                    assert(a.to_set().contains(a[i]));
                    assert(h.frozen.contains(a[i]));
                    assert(fresh.to_set().contains(fresh[j]));
                }
                lemma_no_dup_in_concat(a, fresh);
                assert((a + fresh).to_set() =~= a.to_set().union(fresh.to_set())) by {
                    assert forall|n: ProcTagView| (a + fresh).to_set().contains(n) <==> a.to_set().union(
                        fresh.to_set(),
                    ).contains(n) by {
                        if (a + fresh).contains(n) {
                            let i = choose|i: int| 0 <= i < (a + fresh).len() && (a + fresh)[i] == n;
                            if i < a.len() {
                                assert(a[i] == n);
                            } else {
                                assert(fresh[i - a.len()] == n);
                            }
                        }
                        if a.contains(n) {
                            let i = choose|i: int| 0 <= i < a.len() && a[i] == n;
                            assert((a + fresh)[i] == n);
                        }
                        if fresh.contains(n) {
                            let i = choose|i: int| 0 <= i < fresh.len() && fresh[i] == n;
                            assert((a + fresh)[a.len() + i] == n);
                        }
                    }
                }
                assert forall|i: int| 0 <= i < out.len() implies {
                    let n = #[trigger] out[i];
                    &&& g0.owner.dom().contains(n.tag@)
                    &&& n.to@ == g0.owner[n.tag@]
                    &&& has_entry(self.ctx.roll_frz_send@, n.to@)
                } by {
                    if i < kept.len() {
                        assert(out[i] == kept[i]);
                    } else {
                        assert(out[i] == added[i - kept.len()]);
                    }
                }
            }
        }
        proof {
            assert(views(queue@) =~= Seq::<ProcTagView>::empty());
            assert(done =~= all);
        }
        (out, Ok(()))
    }

    /// Takes the disappear notices `tags`, in order, as `retire_batch`
    /// says. The result holds the resurrect notices to send, in order, and
    /// the error that ended the run, if one did.
    pub fn retire_steps(&mut self, tags: Vec<ProcTag>) -> (r: (
        Vec<RessurectNotice>,
        Result<(), HistoryError>,
    ))
        requires
            old(self).wf(),
        ensures
            final(self).wf(),
            final(self).context() == old(self).context(),
            ({
                let b = retire_batch(
                    old(self).graph(),
                    entry_ids(old(self).context().ress_tag_send@),
                    views(tags@),
                );
                &&& final(self).graph() == b.graph
                &&& r.1 == outcome_of(b.error)
                &&& views(r.0@) == b.notices
            }),
            forall|i: int|
                0 <= i < r.0.len() ==> has_entry(
                    old(self).context().ress_tag_send@,
                    (#[trigger] r.0[i]).to@,
                ),
    {
        let ghost g0 = self.graph();
        let ghost all = views(tags@);
        let ghost ids = entry_ids(self.ctx.ress_tag_send@);
        let ghost mut done: Seq<ProcTagView> = Seq::empty();
        let mut queue = tags;
        let mut out: Vec<RessurectNotice> = Vec::new();
        proof {
            assert(done + views(queue@) =~= all);
            assert(views(out@) =~= retire_batch(g0, ids, done).notices);
        }
        while queue.len() > 0
            invariant
                self.ctx == old(self).ctx,
                self.wf(),
                g0 == old(self).graph(),
                all == views(tags@),
                ids == entry_ids(self.ctx.ress_tag_send@),
                done + views(queue@) == all,
                retire_batch(g0, ids, done).error is None,
                retire_batch(g0, ids, done).graph == self.graph(),
                retire_batch(g0, ids, done).notices == views(out@),
                forall|i: int|
                    0 <= i < out.len() ==> has_entry(
                        self.ctx.ress_tag_send@,
                        (#[trigger] out[i]).to@,
                    ),
            decreases queue.len(),
        {
            let ghost rest = views(queue@);
            let ghost h = self.graph();
            let tag = queue.remove(0);
            let ghost t = tag@;
            let ghost before = done;
            proof {
                assert(t == rest[0]);
                assert(views(queue@) =~= rest.drop_first());
                done = done.push(t);
                assert(done.drop_last() =~= before);
                assert(done + views(queue@) =~= before + rest);
            }
            match self.graph.retire(&tag) {
                Err(e) => {
                    proof {
                        lemma_retire_batch_ends(g0, ids, done, views(queue@));
                    }
                    return (out, Err(e));
                },
                Ok(None) => {},
                Ok(Some((to_sender, to_receiver))) => {
                    let heard = entry_of(&self.ctx.ress_tag_send, &to_sender.to).is_some()
                        && entry_of(&self.ctx.ress_tag_send, &to_receiver.to).is_some();
                    if !heard {
                        proof {
                            lemma_retire_batch_ends(g0, ids, done, views(queue@));
                        }
                        return (out, Err(HistoryError::UnknownParticipant));
                    }
                    let ghost kept = out@;
                    proof {
                        lemma_views_push(kept, to_sender);
                        lemma_views_push(kept.push(to_sender), to_receiver);
                    }
                    out.push(to_sender);
                    out.push(to_receiver);
                    assert forall|i: int| 0 <= i < out.len() implies has_entry(
                        self.ctx.ress_tag_send@,
                        (#[trigger] out[i]).to@,
                    ) by {
                        if i < kept.len() {
                            assert(out[i] == kept[i]);
                        }
                    }
                },
            }
        }
        proof {
            assert(views(queue@) =~= Seq::<ProcTagView>::empty());
            assert(done =~= all);
        }
        (out, Ok(()))
    }

    /// The tag cycle: files every record that has come, in the order in
    /// which the participants are listed and, for each, in the order in which
    /// its records came, and confirms each key to the receiver. The result
    /// holds the confirmations that were sent: one for each record whose
    /// receiver has a channel, for the receiver, with the key of the step.
    /// The graph changes by these records and by nothing else; without a
    /// participant to hear from, it stays as it is.
    pub fn run_tag_cycle(&mut self) -> (confirmed: Vec<Confirmation>)
        requires
            old(self).wf(),
        ensures
            final(self).wf(),
            final(self).context() == old(self).context(),
            exists|pieces: Seq<MemoryPieceView>|
                final(self).graph() == #[trigger] record_all(old(self).graph(), pieces) && views(
                    confirmed@,
                ) == deliverable(
                    confirmations_of(pieces),
                    entry_ids(old(self).context().hist_not_send@),
                ),
            recorded(old(self).graph(), final(self).graph()),
            final(self).graph().frozen == old(self).graph().frozen,
            old(self).context().hist_tag_recv@.len() == 0 ==> final(self).graph() == old(
                self,
            ).graph() && confirmed@.len() == 0,
    {
        let pieces = drain_all(&self.ctx.hist_tag_recv);
        let ghost all = views(pieces@);
        proof {
            lemma_record_all_frozen(self.graph(), all);
        }
        let owed = self.file_records(pieces);
        let mut i: usize = 0;
        while i < owed.len()
            invariant
                self.ctx == old(self).ctx,
                forall|j: int|
                    0 <= j < owed.len() ==> has_entry(
                        self.ctx.hist_not_send@,
                        (#[trigger] owed[j]).to@,
                    ),
            decreases owed.len() - i,
        {
            match entry_of(&self.ctx.hist_not_send, &owed[i].to) {
                Some(x) => {
                    let _ = send(x, owed[i].tag.clone());
                },
                None => {
                    assert(has_entry(self.ctx.hist_not_send@, owed[i as int].to@));
                    unreached::<()>()
                },
            }
            i += 1;
        }
        owed
    }

    /// The rollback cycle: takes every request that has come, in the order
    /// in which the participants are listed and, for each, in the order in
    /// which its requests came, as `rollback_batch` says, and tells each
    /// owner. The cycle ends in an error at a request for a tag that nobody
    /// owns and at a notice for a participant without a channel; without a
    /// participant to hear from, it succeeds and the graph stays as it is.
    pub fn run_rollback_cycle(&mut self) -> (r: Result<(), HistoryError>)
        requires
            old(self).wf(),
        ensures
            final(self).wf(),
            final(self).context() == old(self).context(),
            exists|requests: Seq<ProcTagView>|
                {
                    let b = #[trigger] rollback_batch(
                        old(self).graph(),
                        entry_ids(old(self).context().roll_frz_send@),
                        requests,
                    );
                    final(self).graph() == b.graph && r == outcome_of(b.error)
                },
            rolled_back(old(self).graph(), final(self).graph()),
            old(self).graph().frozen.subset_of(final(self).graph().frozen),
            final(self).graph().owner == old(self).graph().owner,
            final(self).graph().join == old(self).graph().join,
            final(self).graph().branch == old(self).graph().branch,
            final(self).graph().rev == old(self).graph().rev,
            r matches Err(e) ==> e == HistoryError::UnknownTag || e
                == HistoryError::UnknownParticipant,
            r matches Err(HistoryError::UnknownParticipant) ==> final(self).graph().has_owner_missing(
                entry_ids(old(self).context().roll_frz_send@),
            ),
            old(self).context().roll_tag_recv@.len() == 0 ==> r is Ok && final(self).graph()
                == old(self).graph(),
    {
        let requests = drain_all(&self.ctx.roll_tag_recv);
        proof {
            lemma_rollback_batch(
                self.graph(),
                entry_ids(self.ctx.roll_frz_send@),
                views(requests@),
            );
        }
        let (notices, outcome) = self.spread_rollbacks(requests);
        let mut notices = notices;
        while notices.len() > 0
            invariant
                self.ctx == old(self).ctx,
                forall|j: int|
                    0 <= j < notices.len() ==> has_entry(
                        self.ctx.roll_frz_send@,
                        (#[trigger] notices[j]).to@,
                    ),
            decreases notices.len(),
        {
            let ghost rest = notices@;
            let notice = notices.remove(0);
            proof {
                assert(notice == rest[0]);
                assert forall|j: int| 0 <= j < notices.len() implies has_entry(
                    self.ctx.roll_frz_send@,
                    (#[trigger] notices[j]).to@,
                ) by {
                    assert(notices[j] == rest[j + 1]);
                }
            }
            match entry_of(&self.ctx.roll_frz_send, &notice.to) {
                Some(x) => {
                    let _ = send(x, notice.tag);
                },
                None => {
                    unreached::<()>()
                },
            }
        }
        outcome
    }

    /// The disappear cycle: takes every notice that has come, in the order
    /// in which they came, as `retire_batch` says, and sends each of the
    /// two units of a step to the owner of the other one. The cycle ends in
    /// an error at a record that does not pair a send with a receive and at
    /// a unit for a participant without a channel; with no step on record
    /// it succeeds.
    pub fn run_dissapear_cycle(&mut self) -> (r: Result<(), HistoryError>)
        requires
            old(self).wf(),
        ensures
            final(self).wf(),
            final(self).context() == old(self).context(),
            exists|tags: Seq<ProcTagView>|
                {
                    let b = #[trigger] retire_batch(
                        old(self).graph(),
                        entry_ids(old(self).context().ress_tag_send@),
                        tags,
                    );
                    final(self).graph() == b.graph && r == outcome_of(b.error)
                },
            retired(old(self).graph(), final(self).graph()),
            final(self).graph().frozen == old(self).graph().frozen,
            final(self).graph().owner == old(self).graph().owner,
            final(self).graph().join == old(self).graph().join,
            final(self).graph().branch == old(self).graph().branch,
            r matches Err(e) ==> e == HistoryError::BrokenPair || e
                == HistoryError::UnknownParticipant,
            r matches Err(HistoryError::BrokenPair) ==> old(self).graph().has_broken_record(),
            r matches Err(HistoryError::UnknownParticipant) ==> final(self).graph().has_owner_missing(
                entry_ids(old(self).context().ress_tag_send@),
            ),
            (forall|t: ProcTagView| !old(self).graph().rev.dom().contains(t)) ==> r is Ok,
    {
        let tags = drain(&self.ctx.diss_tag_recv);
        proof {
            self.graph.lemma_wf();
            lemma_retire_batch(self.graph(), entry_ids(self.ctx.ress_tag_send@), views(tags@));
        }
        let (notices, outcome) = self.retire_steps(tags);
        let mut notices = notices;
        while notices.len() > 0
            invariant
                self.ctx == old(self).ctx,
                forall|j: int|
                    0 <= j < notices.len() ==> has_entry(
                        self.ctx.ress_tag_send@,
                        (#[trigger] notices[j]).to@,
                    ),
            decreases notices.len(),
        {
            let ghost rest = notices@;
            let notice = notices.remove(0);
            proof {
                assert(notice == rest[0]);
                assert forall|j: int| 0 <= j < notices.len() implies has_entry(
                    self.ctx.ress_tag_send@,
                    (#[trigger] notices[j]).to@,
                ) by {
                    assert(notices[j] == rest[j + 1]);
                }
            }
            match entry_of(&self.ctx.ress_tag_send, &notice.to) {
                Some(x) => {
                    let _ = send(x, notice.msg);
                },
                None => {
                    unreached::<()>()
                },
            }
        }
        outcome
    }

    /// One round of the history: the tag cycle, the rollback cycle and the
    /// disappear cycle, in this order; an error ends the round where it
    /// comes. The graph and the result are what `round_of` gives for the
    /// messages that have come. A broken pair is met only among the records that are on file
    /// once the tag cycle is through; a participant is missed only where the
    /// owner of a tag has no channel for freeze notices or for units sent
    /// back.
    pub fn step(&mut self) -> (r: Result<(), HistoryError>)
        requires
            old(self).wf(),
        ensures
            final(self).wf(),
            final(self).context() == old(self).context(),
            exists|pieces: Seq<MemoryPieceView>, requests: Seq<ProcTagView>, tags: Seq<ProcTagView>|
                (final(self).graph(), r) == #[trigger] round_of(
                    old(self).graph(),
                    entry_ids(old(self).context().roll_frz_send@),
                    entry_ids(old(self).context().ress_tag_send@),
                    pieces,
                    requests,
                    tags,
                ),
            history_round(old(self).graph(), final(self).graph()),
            old(self).graph().frozen.subset_of(final(self).graph().frozen),
            r matches Err(HistoryError::BrokenPair) ==> exists|g1: CausalGraphView| #[trigger]
                recorded(old(self).graph(), g1) && g1.has_broken_record(),
            r matches Err(HistoryError::UnknownParticipant) ==> final(self).graph().has_owner_missing(
                entry_ids(old(self).context().roll_frz_send@),
            ) || final(self).graph().has_owner_missing(
                entry_ids(old(self).context().ress_tag_send@),
            ),
    {
        let ghost g0 = self.graph();
        let ghost tell = entry_ids(self.ctx.roll_frz_send@);
        let ghost reach = entry_ids(self.ctx.ress_tag_send@);
        self.run_tag_cycle();
        let ghost g1 = self.graph();
        let ghost pieces = choose|pieces: Seq<MemoryPieceView>| g1 == #[trigger] record_all(g0, pieces);
        let spread = self.run_rollback_cycle();
        let ghost g2 = self.graph();
        let ghost requests = choose|requests: Seq<ProcTagView>|
            {
                let b = #[trigger] rollback_batch(g1, tell, requests);
                g2 == b.graph && spread == outcome_of(b.error)
            };
        match spread {
            Err(e) => {
                proof {
                    let none = Seq::<ProcTagView>::empty();
                    assert(g2 == retire_all(g2, none));
                    assert(recorded(g0, g1) && rolled_back(g1, g2) && retired(g2, g2));
                    assert((g2, spread) == round_of(g0, tell, reach, pieces, requests, none));
                }
                return Err(e);
            },
            Ok(_) => {},
        }
        let r = self.run_dissapear_cycle();
        proof {
            let tags = choose|tags: Seq<ProcTagView>|
                {
                    let b = #[trigger] retire_batch(g2, reach, tags);
                    self.graph() == b.graph && r == outcome_of(b.error)
                };
            assert((self.graph(), r) == round_of(g0, tell, reach, pieces, requests, tags));
            assert(recorded(g0, g1) && rolled_back(g1, g2) && retired(g2, self.graph()));
            if r matches Err(HistoryError::BrokenPair) {
                let t = choose|t: ProcTagView| #[trigger]
                    g2.rev.dom().contains(t) && !(g2.rev[t].0.proc is Send && g2.rev[t].1.proc is Recv);
                assert(g1.rev.dom().contains(t));
                assert(g1.has_broken_record());
            }
        }
        r
    }
}

} // verus!
