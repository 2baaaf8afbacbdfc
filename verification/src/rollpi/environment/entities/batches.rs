//! What the history makes of the messages of one kind that have come, taken
//! in order: the graph that it is left with, the notices that it owes, and
//! the error at which it stops.

use super::causal_graph::{
    lemma_retire_all_rev, record_all, retire_all, retired, rollback_all, rolled_back,
    CausalGraphView, HistoryError,
};
use super::participant::RessurectMsgView;
use crate::rollpi::environment::types::MemoryPieceView;
use crate::rollpi::syntax::ProcTagView;
use vstd::prelude::*;

verus! {

/// Those of `answers` that can be sent, in order: the ones for a
/// participant of `ids`.
pub open spec fn deliverable(answers: Seq<(Seq<char>, Seq<char>)>, ids: Set<Seq<char>>) -> Seq<
    (Seq<char>, Seq<char>),
>
    decreases answers.len(),
{
    if answers.len() == 0 {
        answers
    } else {
        let before = deliverable(answers.drop_last(), ids);
        if ids.contains(answers.last().0) {
            before.push(answers.last())
        } else {
            before
        }
    }
}

/// What can be sent is for a participant of `ids`; and where every answer
/// is for one of them, every answer can be sent.
pub proof fn lemma_deliverable(answers: Seq<(Seq<char>, Seq<char>)>, ids: Set<Seq<char>>)
    ensures
        forall|i: int|
            0 <= i < deliverable(answers, ids).len() ==> ids.contains(
                (#[trigger] deliverable(answers, ids)[i]).0,
            ),
        (forall|i: int| 0 <= i < answers.len() ==> ids.contains((#[trigger] answers[i]).0))
            ==> deliverable(answers, ids) == answers,
    decreases answers.len(),
{
    if answers.len() > 0 {
        let front = answers.drop_last();
        lemma_deliverable(front, ids);
        let d = deliverable(answers, ids);
        assert forall|i: int| 0 <= i < d.len() implies ids.contains((#[trigger] d[i]).0) by {
            if i < deliverable(front, ids).len() {
                assert(d[i] == deliverable(front, ids)[i]);
            }
        }
        if forall|i: int| 0 <= i < answers.len() ==> ids.contains((#[trigger] answers[i]).0) {
            assert forall|i: int| 0 <= i < front.len() implies ids.contains(
                (#[trigger] front[i]).0,
            ) by {
                assert(front[i] == answers[i]);
            }
            assert(ids.contains(answers[answers.len() - 1].0));
            assert(deliverable(answers, ids) =~= answers);
        }
    }
}

/// The result of a run: the error that ended it, if one did.
pub open spec fn outcome_of(error: Option<HistoryError>) -> Result<(), HistoryError> {
    match error {
        Some(e) => Err(e),
        None => Ok(()),
    }
}

/// Whether the graph `g` can act on a rollback to `tag`: the tag is
/// condemned already, or has an owner.
pub open spec fn known(g: CausalGraphView, tag: ProcTagView) -> bool {
    g.frozen.contains(tag) || g.owner.dom().contains(tag)
}

/// Whether a rollback to `tag` condemns a tag whose owner is none of
/// `ids`.
pub open spec fn condemns_unheard(g: CausalGraphView, tag: ProcTagView, ids: Set<Seq<char>>) -> bool {
    exists|n: ProcTagView| g.newly_frozen(tag).contains(n) && #[trigger] g.owner_missing(n, ids)
}

/// What a run of rollback requests leaves: the graph, the tags of which
/// the owners are to be told, and the error that ended the run.
pub struct RollbackBatch {
    pub graph: CausalGraphView,
    pub told: Set<ProcTagView>,
    pub error: Option<HistoryError>,
}

/// What the history makes of the rollback requests `requests`, taken in
/// order, where `ids` are the participants that it can tell. A request for
/// a tag that is neither condemned nor owned ends the run and changes
/// nothing. A request that condemns a tag of an owner that cannot be told
/// ends the run too: its tags are condemned, and nobody is told of them.
/// Every other request condemns what it reaches, and the owners are told.
pub open spec fn rollback_batch(
    g: CausalGraphView,
    ids: Set<Seq<char>>,
    requests: Seq<ProcTagView>,
) -> RollbackBatch
    decreases requests.len(),
{
    if requests.len() == 0 {
        RollbackBatch { graph: g, told: Set::empty(), error: None }
    } else {
        let before = rollback_batch(g, ids, requests.drop_last());
        let t = requests.last();
        if before.error is Some {
            before
        } else if !known(before.graph, t) {
            RollbackBatch {
                graph: before.graph,
                told: before.told,
                error: Some(HistoryError::UnknownTag),
            }
        } else if condemns_unheard(before.graph, t, ids) {
            RollbackBatch {
                graph: before.graph.rollback(t),
                told: before.told,
                error: Some(HistoryError::UnknownParticipant),
            }
        } else {
            RollbackBatch {
                graph: before.graph.rollback(t),
                told: before.told.union(before.graph.newly_frozen(t)),
                error: None,
            }
        }
    }
}

/// A rollback condemns no tag that is condemned already.
pub proof fn lemma_newly_frozen_fresh(g: CausalGraphView, tag: ProcTagView)
    ensures
        g.newly_frozen(tag).disjoint(g.frozen),
{
    assert forall|n: ProcTagView| g.newly_frozen(tag).contains(n) implies !g.frozen.contains(n) by {
        let p = choose|p: Seq<ProcTagView>| #[trigger]
            g.path(g.frozen, p) && p[0] == tag && p.last() == n;
        assert(!g.frozen.contains(p[p.len() - 1]));
    }
}

/// A run of rollback requests that ends in an error ends there: what is
/// asked for after it changes nothing.
pub proof fn lemma_rollback_batch_ends(
    g: CausalGraphView,
    ids: Set<Seq<char>>,
    requests: Seq<ProcTagView>,
    more: Seq<ProcTagView>,
)
    requires
        rollback_batch(g, ids, requests).error is Some,
    ensures
        rollback_batch(g, ids, requests + more) == rollback_batch(g, ids, requests),
    decreases more.len(),
{
    if more.len() == 0 {
        assert(requests + more =~= requests);
    } else {
        lemma_rollback_batch_ends(g, ids, requests, more.drop_last());
        assert((requests + more).drop_last() =~= requests + more.drop_last());
    }
}

/// What a run of rollback requests does to the graph: it rolls back to
/// some of the requests, in order, and to all of them unless an error ends
/// it; only the condemned tags change. The owners are told of tags that
/// the run has condemned, and of all of them unless an error ends it. The
/// run misses a participant only where some owner is none of `ids`.
pub proof fn lemma_rollback_batch(
    g: CausalGraphView,
    ids: Set<Seq<char>>,
    requests: Seq<ProcTagView>,
)
    ensures
        ({
            let b = rollback_batch(g, ids, requests);
            &&& exists|k: int|
                0 <= k <= requests.len() && b.graph == #[trigger] rollback_all(g, requests.take(k))
            &&& rolled_back(g, b.graph)
            &&& b.error is None ==> b.graph == rollback_all(g, requests)
            &&& b.graph.owner == g.owner
            &&& b.graph.join == g.join
            &&& b.graph.rev == g.rev
            &&& b.graph.branch == g.branch
            &&& g.frozen.subset_of(b.graph.frozen)
            &&& b.told.subset_of(b.graph.frozen)
            &&& b.told.disjoint(g.frozen)
            &&& b.error is None ==> b.graph.frozen == g.frozen.union(b.told)
            &&& b.error != Some(HistoryError::BrokenPair)
            &&& b.error == Some(HistoryError::UnknownParticipant) ==> b.graph.has_owner_missing(ids)
        }),
    decreases requests.len(),
{
    let b = rollback_batch(g, ids, requests);
    if requests.len() == 0 {
        assert(requests.take(0) =~= requests);
        assert(b.graph == rollback_all(g, requests.take(0)));
        assert(g.frozen.union(b.told) =~= g.frozen);
    } else {
        let front = requests.drop_last();
        let t = requests.last();
        lemma_rollback_batch(g, ids, front);
        let before = rollback_batch(g, ids, front);
        let k = choose|k: int|
            0 <= k <= front.len() && before.graph == #[trigger] rollback_all(g, front.take(k));
        assert(front.take(k) =~= requests.take(k));
        if before.error is Some {
            assert(b.graph == rollback_all(g, requests.take(k)));
        } else if !known(before.graph, t) {
            assert(front =~= requests.take(requests.len() - 1));
            assert(b.graph == rollback_all(g, requests.take(requests.len() - 1)));
        } else {
            let h = before.graph;
            assert(requests.take(requests.len() as int) =~= requests);
            assert(b.graph == rollback_all(g, requests.take(requests.len() as int)));
            lemma_newly_frozen_fresh(h, t);
            if condemns_unheard(h, t, ids) {
                let n = choose|n: ProcTagView|
                    h.newly_frozen(t).contains(n) && #[trigger] h.owner_missing(n, ids);
                assert(b.graph.owner_missing(n, ids));
            } else {
                assert(b.graph.frozen =~= g.frozen.union(b.told));
            }
        }
    }
}

/// The pair of notices that the owners of the two units of the step `tag`
/// get once it has disappeared: each gets the unit of the other.
pub open spec fn resurrect_pair(g: CausalGraphView, tag: ProcTagView) -> (
    (Seq<char>, RessurectMsgView),
    (Seq<char>, RessurectMsgView),
) {
    let pair = g.rev[tag];
    (
        (
            g.owner[pair.0.tag],
            RessurectMsgView { dissapeared_tag: tag, ress_tagged_proc: pair.1 },
        ),
        (
            g.owner[pair.1.tag],
            RessurectMsgView { dissapeared_tag: tag, ress_tagged_proc: pair.0 },
        ),
    )
}

/// What a run of disappear notices leaves: the graph, the notices that go
/// out, in order, and the error that ended the run.
pub struct RetireBatch {
    pub graph: CausalGraphView,
    pub notices: Seq<(Seq<char>, RessurectMsgView)>,
    pub error: Option<HistoryError>,
}

/// What the history makes of the disappear notices `tags`, taken in order,
/// where `ids` are the participants that it can reach. A step that is not
/// on record is passed over. A record that does not pair a send with a
/// receive ends the run, and so does one with an owner that cannot be
/// reached; either is forgotten. Every other step is forgotten, and its
/// two units go out: first the receive, to the owner of the send, then the
/// send, to the owner of the receive.
pub open spec fn retire_batch(g: CausalGraphView, ids: Set<Seq<char>>, tags: Seq<ProcTagView>) -> RetireBatch
    decreases tags.len(),
{
    if tags.len() == 0 {
        RetireBatch { graph: g, notices: Seq::empty(), error: None }
    } else {
        let before = retire_batch(g, ids, tags.drop_last());
        let t = tags.last();
        let h = before.graph;
        let out = resurrect_pair(h, t);
        if before.error is Some {
            before
        } else if !h.rev.dom().contains(t) {
            RetireBatch { graph: h.retire(t), notices: before.notices, error: None }
        } else if !(h.rev[t].0.proc is Send && h.rev[t].1.proc is Recv) {
            RetireBatch {
                graph: h.retire(t),
                notices: before.notices,
                error: Some(HistoryError::BrokenPair),
            }
        } else if !ids.contains(out.0.0) || !ids.contains(out.1.0) {
            RetireBatch {
                graph: h.retire(t),
                notices: before.notices,
                error: Some(HistoryError::UnknownParticipant),
            }
        } else {
            RetireBatch {
                graph: h.retire(t),
                notices: before.notices.push(out.0).push(out.1),
                error: None,
            }
        }
    }
}

/// A run of disappear notices that ends in an error ends there: what
/// comes after it changes nothing.
pub proof fn lemma_retire_batch_ends(
    g: CausalGraphView,
    ids: Set<Seq<char>>,
    tags: Seq<ProcTagView>,
    more: Seq<ProcTagView>,
)
    requires
        retire_batch(g, ids, tags).error is Some,
    ensures
        retire_batch(g, ids, tags + more) == retire_batch(g, ids, tags),
    decreases more.len(),
{
    if more.len() == 0 {
        assert(tags + more =~= tags);
    } else {
        lemma_retire_batch_ends(g, ids, tags, more.drop_last());
        assert((tags + more).drop_last() =~= tags + more.drop_last());
    }
}

/// What a run of disappear notices does to the graph: it retires some of
/// the steps, in order, and all of them unless an error ends it; only the
/// records of steps change. No error ends it where no step is on record.
/// A broken pair is met only among the records that were on file, and a
/// participant is missed only where some owner is none of `ids`. Each
/// notice that goes out is for one of `ids`.
pub proof fn lemma_retire_batch(g: CausalGraphView, ids: Set<Seq<char>>, tags: Seq<ProcTagView>)
    requires
        g.links_owned(),
    ensures
        ({
            let b = retire_batch(g, ids, tags);
            &&& exists|k: int|
                0 <= k <= tags.len() && b.graph == #[trigger] retire_all(g, tags.take(k))
            &&& retired(g, b.graph)
            &&& b.error is None ==> b.graph == retire_all(g, tags)
            &&& b.graph.owner == g.owner
            &&& b.graph.join == g.join
            &&& b.graph.branch == g.branch
            &&& b.graph.frozen == g.frozen
            &&& b.error != Some(HistoryError::UnknownTag)
            &&& b.error is Some ==> exists|t: ProcTagView| #[trigger] g.rev.dom().contains(t)
            &&& b.error == Some(HistoryError::BrokenPair) ==> g.has_broken_record()
            &&& b.error == Some(HistoryError::UnknownParticipant) ==> b.graph.has_owner_missing(ids)
            &&& forall|i: int|
                0 <= i < b.notices.len() ==> ids.contains((#[trigger] b.notices[i]).0)
        }),
    decreases tags.len(),
{
    let b = retire_batch(g, ids, tags);
    if tags.len() == 0 {
        assert(tags.take(0) =~= tags);
        assert(b.graph == retire_all(g, tags.take(0)));
    } else {
        let front = tags.drop_last();
        let t = tags.last();
        lemma_retire_batch(g, ids, front);
        let before = retire_batch(g, ids, front);
        let h = before.graph;
        let k = choose|k: int|
            0 <= k <= front.len() && before.graph == #[trigger] retire_all(g, front.take(k));
        assert(front.take(k) =~= tags.take(k));
        lemma_retire_all_rev(g, front.take(k));
        if before.error is Some {
            assert(b.graph == retire_all(g, tags.take(k)));
        } else {
            assert(tags.take(tags.len() as int) =~= tags);
            assert(b.graph == retire_all(g, tags.take(tags.len() as int)));
            if h.rev.dom().contains(t) {
                assert(g.rev.dom().contains(t) && g.rev[t] == h.rev[t]);
                let pair = h.rev[t];
                if !(pair.0.proc is Send && pair.1.proc is Recv) {
                } else {
                    let out = resurrect_pair(h, t);
                    assert(g.owner.dom().contains(pair.0.tag));
                    assert(g.owner.dom().contains(pair.1.tag));
                    if !ids.contains(out.0.0) {
                        assert(b.graph.owner_missing(pair.0.tag, ids));
                    } else if !ids.contains(out.1.0) {
                        assert(b.graph.owner_missing(pair.1.tag, ids));
                    }
                }
            }
        }
    }
}

/// What one round of the history makes of the graph `g`, and how it ends:
/// the records `pieces` are filed, then the rollback requests `requests`
/// are taken, where `tell` are the participants that can be told, then the
/// disappear notices `tags`, where `reach` are those that can be reached.
/// An error among the requests ends the round before any notice is taken.
pub open spec fn round_of(
    g: CausalGraphView,
    tell: Set<Seq<char>>,
    reach: Set<Seq<char>>,
    pieces: Seq<MemoryPieceView>,
    requests: Seq<ProcTagView>,
    tags: Seq<ProcTagView>,
) -> (CausalGraphView, Result<(), HistoryError>) {
    let spread = rollback_batch(record_all(g, pieces), tell, requests);
    let gone = retire_batch(spread.graph, reach, tags);
    if spread.error is Some {
        (spread.graph, outcome_of(spread.error))
    } else {
        (gone.graph, outcome_of(gone.error))
    }
}

} // verus!
