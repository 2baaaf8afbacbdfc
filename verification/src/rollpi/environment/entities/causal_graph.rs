//! The causal graph that the history keeps, and what it does with a record
//! of a rendezvous, with a rollback request and with a disappear notice.

use super::participant::{tags_contain, RessurectMsg, RessurectMsgView};
use super::tag_map::TagMap;
use crate::rollpi::environment::types::{MemoryPiece, MemoryPieceView};
use crate::rollpi::syntax::{
    views, ProcTag, ProcTagView, Process, TagKey, TaggedProc, TaggedProcView,
};
use vstd::prelude::*;

verus! {

/// The causal graph: who owns each tag, which step each consumed tag led to,
/// which two units each step consumed, which fragments of each split
/// process were consumed, and which tags are condemned.
pub struct CausalGraph {
    tag_owner: TagMap<String>,
    join_links: TagMap<ProcTag>,
    rev_join_links: TagMap<(TaggedProc, TaggedProc)>,
    branch_links: TagMap<Vec<ProcTag>>,
    frozen_tags: Vec<ProcTag>,
}

/// The view of a `CausalGraph`.
pub struct CausalGraphView {
    pub owner: Map<ProcTagView, Seq<char>>,
    pub join: Map<ProcTagView, ProcTagView>,
    pub rev: Map<ProcTagView, (TaggedProcView, TaggedProcView)>,
    pub branch: Map<ProcTagView, Seq<ProcTagView>>,
    pub frozen: Set<ProcTagView>,
}

/// Why the history could not act on a message: each of these ends its
/// run.
#[derive(Debug, PartialEq, Eq)]
pub enum HistoryError {
    /// A rollback was asked for a tag that nobody owns.
    UnknownTag,
    /// The record of a step does not pair a send with a receive.
    BrokenPair,
    /// A notice is for a participant that has no channel.
    UnknownParticipant,
}

/// The answer to a record of a rendezvous: the key of the step, for the
/// participant `to`.
pub struct Confirmation {
    pub to: String,
    pub tag: TagKey,
}

/// The notice that `tag` is condemned, for its owner `to`.
pub struct FreezeNotice {
    pub to: String,
    pub tag: ProcTag,
}

/// A resurrect message, for the participant `to`.
pub struct RessurectNotice {
    pub to: String,
    pub msg: RessurectMsg,
}

/// `branch` with `child` filed under its original key, where `child` is a
/// fragment.
pub open spec fn add_branch(
    branch: Map<ProcTagView, Seq<ProcTagView>>,
    child: ProcTagView,
) -> Map<ProcTagView, Seq<ProcTagView>> {
    match child {
        ProcTagView::Key(_) => branch,
        ProcTagView::Split(_, _, orig) => {
            let key = ProcTagView::Key(orig);
            let deps = if branch.dom().contains(key) {
                branch[key]
            } else {
                Seq::empty()
            };
            branch.insert(key, deps.push(child))
        },
    }
}

impl CausalGraphView {
    /// Whether the graph has an edge from `a` to `b`: the step that `a` led
    /// to, or a consumed fragment of `a`.
    pub open spec fn edge(self, a: ProcTagView, b: ProcTagView) -> bool {
        ||| self.join.dom().contains(a) && self.join[a] == b
        ||| self.branch.dom().contains(a) && self.branch[a].contains(b)
    }

    /// Whether `p` is a path of the graph that touches no tag of `avoid`.
    pub open spec fn path(self, avoid: Set<ProcTagView>, p: Seq<ProcTagView>) -> bool {
        &&& p.len() >= 1
        &&& forall|i: int| 0 <= i < p.len() ==> !avoid.contains(#[trigger] p[i])
        &&& forall|i: int| 0 <= i < p.len() - 1 ==> self.edge(#[trigger] p[i], p[i + 1])
    }

    /// Whether `b` can be reached from `a` along edges without touching a
    /// tag of `avoid`.
    pub open spec fn reaches(self, avoid: Set<ProcTagView>, a: ProcTagView, b: ProcTagView) -> bool {
        exists|p: Seq<ProcTagView>| #[trigger] self.path(avoid, p) && p[0] == a && p.last() == b
    }

    /// Whether every tag to which an edge leads, and every tag of a
    /// consumed unit of a step, has an owner.
    pub open spec fn links_owned(self) -> bool {
        &&& forall|a: ProcTagView, b: ProcTagView| #[trigger]
            self.edge(a, b) ==> self.owner.dom().contains(b)
        &&& forall|t: ProcTagView| #[trigger]
            self.rev.dom().contains(t) ==> self.owner.dom().contains(self.rev[t].0.tag)
                && self.owner.dom().contains(self.rev[t].1.tag)
    }

    /// Causal closure: every tag to which an edge leads from a condemned tag
    /// is condemned.
    pub open spec fn frozen_closed(self) -> bool {
        forall|a: ProcTagView, b: ProcTagView|
            self.frozen.contains(a) && #[trigger] self.edge(a, b) ==> self.frozen.contains(b)
    }

    /// The graph after the record `m` of a rendezvous: the step belongs to
    /// the receiver, each consumed unit to its participant; each consumed
    /// fragment is filed under its original key; both consumed tags lead to
    /// the step; and the step remembers the two units.
    pub open spec fn record(self, m: MemoryPieceView) -> CausalGraphView {
        let new_tag = ProcTagView::Key(m.new_mem_tag);
        CausalGraphView {
            owner: self.owner.insert(new_tag, m.receiver_id).insert(
                m.sender.tag,
                m.sender_id,
            ).insert(m.receiver.tag, m.receiver_id),
            join: self.join.insert(m.receiver.tag, new_tag).insert(m.sender.tag, new_tag),
            rev: self.rev.insert(new_tag, (m.sender, m.receiver)),
            branch: add_branch(add_branch(self.branch, m.sender.tag), m.receiver.tag),
            frozen: self.frozen,
        }
    }

    /// The tags that a rollback to `tag` condemns: those that can be
    /// reached from `tag` without touching a tag that is condemned already.
    pub open spec fn newly_frozen(self, tag: ProcTagView) -> Set<ProcTagView> {
        Set::new(|p: ProcTagView| self.reaches(self.frozen, tag, p))
    }

    /// The graph after a rollback to `tag`.
    pub open spec fn rollback(self, tag: ProcTagView) -> CausalGraphView {
        CausalGraphView {
            owner: self.owner,
            join: self.join,
            rev: self.rev,
            branch: self.branch,
            frozen: self.frozen.union(self.newly_frozen(tag)),
        }
    }

    /// The graph after the step tagged `tag` has disappeared.
    pub open spec fn retire(self, tag: ProcTagView) -> CausalGraphView {
        CausalGraphView {
            owner: self.owner,
            join: self.join,
            rev: self.rev.remove(tag),
            branch: self.branch,
            frozen: self.frozen,
        }
    }
}

/// The answer of the history to the record `m`: for the receiver of the
/// rendezvous, the key of the step.
pub open spec fn confirmation_of(m: MemoryPieceView) -> (Seq<char>, Seq<char>) {
    (m.receiver_id, m.new_mem_tag)
}

/// The answers of the history to the records `pieces`, one for each, in
/// order.
pub open spec fn confirmations_of(pieces: Seq<MemoryPieceView>) -> Seq<(Seq<char>, Seq<char>)> {
    Seq::new(pieces.len(), |i: int| confirmation_of(pieces[i]))
}

/// The graph without any record.
pub open spec fn empty_graph() -> CausalGraphView {
    CausalGraphView {
        owner: Map::empty(),
        join: Map::empty(),
        rev: Map::empty(),
        branch: Map::empty(),
        frozen: Set::empty(),
    }
}

/// The graph after the records `pieces`, filed one after the other.
pub open spec fn record_all(g: CausalGraphView, pieces: Seq<MemoryPieceView>) -> CausalGraphView
    decreases pieces.len(),
{
    if pieces.len() == 0 {
        g
    } else {
        record_all(g, pieces.drop_last()).record(pieces.last())
    }
}

/// The graph after rollbacks to `tags`, one after the other.
pub open spec fn rollback_all(g: CausalGraphView, tags: Seq<ProcTagView>) -> CausalGraphView
    decreases tags.len(),
{
    if tags.len() == 0 {
        g
    } else {
        rollback_all(g, tags.drop_last()).rollback(tags.last())
    }
}

/// The graph after the steps tagged `tags` have disappeared, one after the
/// other.
pub open spec fn retire_all(g: CausalGraphView, tags: Seq<ProcTagView>) -> CausalGraphView
    decreases tags.len(),
{
    if tags.len() == 0 {
        g
    } else {
        retire_all(g, tags.drop_last()).retire(tags.last())
    }
}

impl CausalGraphView {
    /// Whether the graph holds the record of a step that does not pair a
    /// send with a receive.
    pub open spec fn has_broken_record(self) -> bool {
        exists|t: ProcTagView| #[trigger]
            self.rev.dom().contains(t) && !(self.rev[t].0.proc is Send && self.rev[t].1.proc is Recv)
    }

    /// Whether `tag` has an owner that is not among `ids`.
    pub open spec fn owner_missing(self, tag: ProcTagView, ids: Set<Seq<char>>) -> bool {
        self.owner.dom().contains(tag) && !ids.contains(self.owner[tag])
    }

    /// Whether some tag has an owner that is not among `ids`.
    pub open spec fn has_owner_missing(self, ids: Set<Seq<char>>) -> bool {
        exists|t: ProcTagView| #[trigger] self.owner_missing(t, ids)
    }
}

/// Whether `after` is `before` with some records filed.
pub open spec fn recorded(before: CausalGraphView, after: CausalGraphView) -> bool {
    exists|pieces: Seq<MemoryPieceView>| after == #[trigger] record_all(before, pieces)
}

/// Whether `after` is `before` with some tags rolled back.
pub open spec fn rolled_back(before: CausalGraphView, after: CausalGraphView) -> bool {
    exists|tags: Seq<ProcTagView>| after == #[trigger] rollback_all(before, tags)
}

/// Whether `after` is `before` with some steps retired.
pub open spec fn retired(before: CausalGraphView, after: CausalGraphView) -> bool {
    exists|tags: Seq<ProcTagView>| after == #[trigger] retire_all(before, tags)
}

/// Whether `after` is what one round of the history makes of `before`:
/// some records filed, then some tags rolled back, then some steps retired.
pub open spec fn history_round(before: CausalGraphView, after: CausalGraphView) -> bool {
    exists|g1: CausalGraphView, g2: CausalGraphView|
        #[trigger] recorded(before, g1) && rolled_back(g1, g2) && #[trigger] retired(g2, after)
}

/// Retiring steps adds no record: what is on record afterwards was on
/// record before.
pub proof fn lemma_retire_all_rev(g: CausalGraphView, tags: Seq<ProcTagView>)
    ensures
        forall|t: ProcTagView| #[trigger]
            retire_all(g, tags).rev.dom().contains(t) ==> g.rev.dom().contains(t) && g.rev[t]
                == retire_all(g, tags).rev[t],
        retire_all(g, tags).owner == g.owner,
    decreases tags.len(),
{
    if tags.len() > 0 {
        lemma_retire_all_rev(g, tags.drop_last());
    }
}

/// Every tag reaches itself, unless it is to be avoided.
pub proof fn lemma_reaches_self(g: CausalGraphView, avoid: Set<ProcTagView>, a: ProcTagView)
    requires
        !avoid.contains(a),
    ensures
        g.reaches(avoid, a, a),
{
    let p = seq![a];
    assert(g.path(avoid, p));
    assert(p[0] == a && p.last() == a);
}

/// A path goes on along an edge.
pub proof fn lemma_reaches_step(
    g: CausalGraphView,
    avoid: Set<ProcTagView>,
    a: ProcTagView,
    b: ProcTagView,
    c: ProcTagView,
)
    requires
        g.reaches(avoid, a, b),
        g.edge(b, c),
        !avoid.contains(c),
    ensures
        g.reaches(avoid, a, c),
{
    let p = choose|p: Seq<ProcTagView>| #[trigger] g.path(avoid, p) && p[0] == a && p.last() == b;
    let q = p.push(c);
    assert forall|i: int| 0 <= i < q.len() - 1 implies g.edge(#[trigger] q[i], q[i + 1]) by {
        if i < p.len() - 1 {
            assert(q[i] == p[i]);
            assert(q[i + 1] == p[i + 1]);
        }
    }
    assert(g.path(avoid, q));
    assert(q[0] == a && q.last() == c);
}

/// Recording a rendezvous keeps every link owned.
pub proof fn lemma_record_links_owned(g: CausalGraphView, m: MemoryPieceView)
    requires
        g.links_owned(),
    ensures
        g.record(m).links_owned(),
{
    let h = g.record(m);
    let new_tag = ProcTagView::Key(m.new_mem_tag);
    let b1 = add_branch(g.branch, m.sender.tag);
    assert forall|a: ProcTagView, b: ProcTagView| #[trigger] h.edge(a, b) implies h.owner.dom().contains(
        b,
    ) by {
        if h.join.dom().contains(a) && h.join[a] == b {
            if a != m.sender.tag && a != m.receiver.tag {
                assert(g.edge(a, b));
            }
        } else {
            assert(h.branch.dom().contains(a) && h.branch[a].contains(b));
            let i = choose|i: int| 0 <= i < h.branch[a].len() && h.branch[a][i] == b;
            if b != m.sender.tag && b != m.receiver.tag {
                // the link was there before
                if b1.dom().contains(a) && b1[a].contains(b) {
                    if g.branch.dom().contains(a) && g.branch[a].contains(b) {
                        assert(g.edge(a, b));
                    } else {
                        match m.sender.tag {
                            ProcTagView::Key(_) => {},
                            ProcTagView::Split(_, _, orig) => {
                                let key = ProcTagView::Key(orig);
                                let j = choose|j: int| 0 <= j < b1[a].len() && b1[a][j] == b;
                                if a == key && g.branch.dom().contains(key) {
                                    assert(g.branch[key][j] == b);
                                }
                            },
                        }
                    }
                } else {
                    match m.receiver.tag {
                        ProcTagView::Key(_) => {},
                        ProcTagView::Split(_, _, orig) => {
                            let key = ProcTagView::Key(orig);
                            if a == key && b1.dom().contains(key) {
                                assert(b1[key][i] == b);
                            }
                        },
                    }
                }
            }
        }
    }
    assert forall|t: ProcTagView| #[trigger] h.rev.dom().contains(t) implies h.owner.dom().contains(
        h.rev[t].0.tag,
    ) && h.owner.dom().contains(h.rev[t].1.tag) by {
        if t != new_tag {
            assert(g.rev.dom().contains(t));
        }
    }
}

/// Causal closure of rollback: on a graph whose condemned tags are closed
/// under the edges, a rollback to `tag` condemns `tag` and leaves the
/// condemned tags closed. So no tag that can be reached from `tag` stays
/// uncondemned.
pub proof fn lemma_rollback_closed(g: CausalGraphView, tag: ProcTagView)
    requires
        g.frozen_closed(),
    ensures
        g.rollback(tag).frozen.contains(tag),
        g.rollback(tag).frozen_closed(),
{
    let h = g.rollback(tag);
    if !g.frozen.contains(tag) {
        lemma_reaches_self(g, g.frozen, tag);
    }
    assert forall|a: ProcTagView, b: ProcTagView|
        h.frozen.contains(a) && #[trigger] h.edge(a, b) implies h.frozen.contains(b) by {
        assert(g.edge(a, b));
        if !g.frozen.contains(a) {
            if !g.frozen.contains(b) {
                lemma_reaches_step(g, g.frozen, tag, a, b);
            }
        }
    }
}

/// No causal descendant survives a rollback of an ancestor: on a graph
/// whose condemned tags are closed under the edges, every tag that can be
/// reached from `tag` is condemned once `tag` is rolled back.
pub proof fn lemma_rollback_reaches(g: CausalGraphView, tag: ProcTagView, p: ProcTagView)
    requires
        g.frozen_closed(),
        g.reaches(Set::empty(), tag, p),
    ensures
        g.rollback(tag).frozen.contains(p),
{
    let h = g.rollback(tag);
    lemma_rollback_closed(g, tag);
    let path = choose|path: Seq<ProcTagView>| #[trigger]
        g.path(Set::empty(), path) && path[0] == tag && path.last() == p;
    assert forall|i: int| 0 <= i < path.len() - 1 implies h.edge(#[trigger] path[i], path[i + 1]) by {
        assert(g.edge(path[i], path[i + 1]));
    }
    assert(h.path(Set::empty(), path));
    lemma_closed_reach(h, path, path.len() - 1);
}

/// The tags from which a record of a rendezvous draws new edges: the two
/// consumed tags and, for each that is a fragment, its original key.
pub open spec fn record_sources(m: MemoryPieceView) -> Set<ProcTagView> {
    let of = |t: ProcTagView|
        match t {
            ProcTagView::Key(_) => set![t],
            ProcTagView::Split(_, _, orig) => set![t, ProcTagView::Key(orig)],
        };
    of(m.sender.tag).union(of(m.receiver.tag))
}

/// Recording a rendezvous keeps the condemned tags closed under the edges,
/// as long as neither consumed unit was condemned: none of the tags from
/// which the record draws edges.
pub proof fn lemma_record_closed(g: CausalGraphView, m: MemoryPieceView)
    requires
        g.frozen_closed(),
        forall|t: ProcTagView| record_sources(m).contains(t) ==> !g.frozen.contains(t),
    ensures
        g.record(m).frozen_closed(),
{
    let h = g.record(m);
    let b1 = add_branch(g.branch, m.sender.tag);
    assert forall|a: ProcTagView, b: ProcTagView|
        h.frozen.contains(a) && #[trigger] h.edge(a, b) implies h.frozen.contains(b) by {
        assert(!record_sources(m).contains(a));
        assert(a != m.sender.tag && a != m.receiver.tag);
        assert(m.sender.tag matches ProcTagView::Split(_, _, o) ==> a != ProcTagView::Key(o));
        assert(m.receiver.tag matches ProcTagView::Split(_, _, o) ==> a != ProcTagView::Key(o));
        if h.join.dom().contains(a) && h.join[a] == b {
            assert(g.edge(a, b));
        } else {
            assert(b1.dom().contains(a) && b1[a] == h.branch[a]);
            assert(g.branch.dom().contains(a) && g.branch[a] == b1[a]);
            assert(g.edge(a, b));
        }
    }
}

/// On a graph whose condemned tags are closed under the edges, every tag
/// that can be reached from a condemned tag is condemned.
pub proof fn lemma_closed_reach(g: CausalGraphView, p: Seq<ProcTagView>, i: int)
    requires
        g.frozen_closed(),
        g.path(Set::empty(), p),
        g.frozen.contains(p[0]),
        0 <= i < p.len(),
    ensures
        g.frozen.contains(p[i]),
    decreases i,
{
    if i > 0 {
        lemma_closed_reach(g, p, i - 1);
        assert(g.edge(p[i - 1], p[i]));
    }
}

/// Whether, in `g`, the step `t1` was split into the fragments `f0` and `f1`
/// that then met in the step `t2`, and nothing else followed from any of
/// the four.
pub open spec fn two_steps(
    g: CausalGraphView,
    t1: ProcTagView,
    f0: ProcTagView,
    f1: ProcTagView,
    t2: ProcTagView,
) -> bool {
    &&& forall|b: ProcTagView| #[trigger] g.edge(t1, b) <==> b == f0 || b == f1
    &&& forall|b: ProcTagView| #[trigger] g.edge(f0, b) <==> b == t2
    &&& forall|b: ProcTagView| #[trigger] g.edge(f1, b) <==> b == t2
    &&& forall|b: ProcTagView| !#[trigger] g.edge(t2, b)
}

proof fn lemma_two_steps_path(
    g: CausalGraphView,
    t1: ProcTagView,
    f0: ProcTagView,
    f1: ProcTagView,
    t2: ProcTagView,
    p: Seq<ProcTagView>,
    i: int,
)
    requires
        two_steps(g, t1, f0, f1, t2),
        g.path(g.frozen, p),
        p[0] == t1,
        0 <= i < p.len(),
    ensures
        p[i] == t1 || p[i] == f0 || p[i] == f1 || p[i] == t2,
    decreases i,
{
    if i > 0 {
        lemma_two_steps_path(g, t1, f0, f1, t2, p, i - 1);
        assert(g.edge(p[i - 1], p[i - 1 + 1]));
    }
}

/// The rollback of the first of two steps: where the fragments of the
/// step `t1` met in the step `t2`, nothing else followed, and none of the
/// four tags is condemned, a rollback to `t1` condemns the two steps and
/// the two fragments, and nothing else.
pub proof fn lemma_rollback_two_steps(
    g: CausalGraphView,
    t1: ProcTagView,
    f0: ProcTagView,
    f1: ProcTagView,
    t2: ProcTagView,
)
    requires
        two_steps(g, t1, f0, f1, t2),
        !g.frozen.contains(t1),
        !g.frozen.contains(f0),
        !g.frozen.contains(f1),
        !g.frozen.contains(t2),
    ensures
        g.newly_frozen(t1) == set![t1, f0, f1, t2],
        g.rollback(t1).frozen == g.frozen.union(set![t1, f0, f1, t2]),
{
    let four = set![t1, f0, f1, t2];
    assert forall|n: ProcTagView| g.newly_frozen(t1).contains(n) <==> four.contains(n) by {
        if g.reaches(g.frozen, t1, n) {
            let p = choose|p: Seq<ProcTagView>| #[trigger]
                g.path(g.frozen, p) && p[0] == t1 && p.last() == n;
            lemma_two_steps_path(g, t1, f0, f1, t2, p, p.len() - 1);
        }
        if four.contains(n) {
            lemma_reaches_self(g, g.frozen, t1);
            assert(g.edge(t1, f0) && g.edge(t1, f1) && g.edge(f0, t2));
            lemma_reaches_step(g, g.frozen, t1, t1, f0);
            lemma_reaches_step(g, g.frozen, t1, t1, f1);
            lemma_reaches_step(g, g.frozen, t1, f0, t2);
        }
    }
    assert(g.newly_frozen(t1) =~= four);
}

impl View for Confirmation {
    type V = (Seq<char>, Seq<char>);

    open spec fn view(&self) -> (Seq<char>, Seq<char>) {
        (self.to@, self.tag@)
    }
}

impl View for FreezeNotice {
    type V = (Seq<char>, ProcTagView);

    open spec fn view(&self) -> (Seq<char>, ProcTagView) {
        (self.to@, self.tag@)
    }
}

impl View for RessurectNotice {
    type V = (Seq<char>, RessurectMsgView);

    open spec fn view(&self) -> (Seq<char>, RessurectMsgView) {
        (self.to@, self.msg@)
    }
}

/// The tags of the notices, in order.
pub open spec fn notice_tags(notices: Seq<FreezeNotice>) -> Seq<ProcTagView> {
    Seq::new(notices.len(), |i: int| notices[i].tag@)
}

/// How many of `keys` are not in `frozen`.
spec fn pending(keys: Seq<ProcTagView>, frozen: Set<ProcTagView>) -> nat
    decreases keys.len(),
{
    if keys.len() == 0 {
        0
    } else {
        pending(keys.drop_last(), frozen) + if frozen.contains(keys.last()) {
            0nat
        } else {
            1nat
        }
    }
}

proof fn lemma_pending_insert(keys: Seq<ProcTagView>, frozen: Set<ProcTagView>, p: ProcTagView)
    ensures
        pending(keys, frozen.insert(p)) <= pending(keys, frozen),
        keys.contains(p) && !frozen.contains(p) ==> pending(keys, frozen.insert(p)) < pending(
            keys,
            frozen,
        ),
    decreases keys.len(),
{
    if keys.len() > 0 {
        lemma_pending_insert(keys.drop_last(), frozen, p);
        if keys.contains(p) && keys.last() != p {
            let i = choose|i: int| 0 <= i < keys.len() && keys[i] == p;
            assert(keys.drop_last()[i] == p);
        }
    }
}

proof fn lemma_tags_push(s: Seq<ProcTag>, x: ProcTag)
    ensures
        views(s.push(x)) == views(s).push(x@),
        views(s.push(x)).to_set() == views(s).to_set().insert(x@),
{
    let a = views(s);
    assert(views(s.push(x)) =~= a.push(x@));
    assert forall|n: ProcTagView| a.push(x@).to_set().contains(n) <==> a.to_set().insert(
        x@,
    ).contains(n) by {
        if a.push(x@).contains(n) {
            let i = choose|i: int| 0 <= i < a.push(x@).len() && a.push(x@)[i] == n;
            if i < a.len() {
                assert(a[i] == n);
            }
        }
        if a.contains(n) {
            let i = choose|i: int| 0 <= i < a.len() && a[i] == n;
            assert(a.push(x@)[i] == n);
        }
        if n == x@ {
            assert(a.push(x@)[a.len() as int] == n);
        }
    }
    assert(a.push(x@).to_set() =~= a.to_set().insert(x@));
}

/// Along a path that starts at a condemned tag, where every edge from a
/// newly condemned tag leads to a condemned tag, every tag is condemned.
proof fn lemma_path_frozen(
    g: CausalGraphView,
    before: Set<ProcTagView>,
    now: Set<ProcTagView>,
    p: Seq<ProcTagView>,
    i: int,
)
    requires
        g.path(before, p),
        now.contains(p[0]),
        forall|a: ProcTagView, b: ProcTagView|
            now.contains(a) && !before.contains(a) && #[trigger] g.edge(a, b) ==> now.contains(b),
        0 <= i < p.len(),
    ensures
        now.contains(p[i]),
    decreases i,
{
    if i > 0 {
        lemma_path_frozen(g, before, now, p, i - 1);
        assert(g.edge(p[i - 1], p[i]));
    }
}

/// Files `child` under its original key, where `child` is a fragment.
fn add_branch_link(branch: &mut TagMap<Vec<ProcTag>>, child: &ProcTag)
    requires
        old(branch).wf(),
    ensures
        final(branch).wf(),
        final(branch).map().map_values(|v: Vec<ProcTag>| views(v@)) == add_branch(
            old(branch).map().map_values(|v: Vec<ProcTag>| views(v@)),
            child@,
        ),
{
    match child {
        ProcTag::PTKey(_) => {},
        ProcTag::PTSplit(_, _, orig_t) => {
            let key = ProcTag::PTKey(orig_t.clone());
            let ghost before = branch.map();
            let mut deps = match branch.remove(&key) {
                Some(d) => d,
                None => Vec::new(),
            };
            let ghost deps0 = deps@;
            assert(!before.dom().contains(key@) ==> views(deps0) =~= Seq::<ProcTagView>::empty());
            let c = child.clone();
            proof {
                lemma_tags_push(deps0, c);
            }
            deps.push(c);
            branch.insert(key, deps);
            assert(branch.map().map_values(|v: Vec<ProcTag>| views(v@)) =~= add_branch(
                before.map_values(|v: Vec<ProcTag>| views(v@)),
                child@,
            ));
        },
    }
}

impl View for CausalGraph {
    type V = CausalGraphView;

    closed spec fn view(&self) -> CausalGraphView {
        CausalGraphView {
            owner: self.tag_owner.map().map_values(|s: String| s@),
            join: self.join_links.map().map_values(|t: ProcTag| t@),
            rev: self.rev_join_links.map().map_values(|p: (TaggedProc, TaggedProc)| (p.0@, p.1@)),
            branch: self.branch_links.map().map_values(|v: Vec<ProcTag>| views(v@)),
            frozen: views(self.frozen_tags@).to_set(),
        }
    }
}

impl CausalGraph {
    /// The invariant of the graph: its maps are in order, and every tag to
    /// which a link leads has an owner.
    pub closed spec fn wf(&self) -> bool {
        &&& self.tag_owner.wf()
        &&& self.join_links.wf()
        &&& self.rev_join_links.wf()
        &&& self.branch_links.wf()
        &&& self@.links_owned()
    }

    /// In a graph that is in order, every link is owned.
    pub proof fn lemma_wf(&self)
        requires
            self.wf(),
        ensures
            self@.links_owned(),
    {
    }

    /// The graph without any record.
    pub fn new() -> (r: Self)
        ensures
            r.wf(),
            r@ == empty_graph(),
            r@.owner == Map::<ProcTagView, Seq<char>>::empty(),
            r@.join == Map::<ProcTagView, ProcTagView>::empty(),
            r@.rev == Map::<ProcTagView, (TaggedProcView, TaggedProcView)>::empty(),
            r@.branch == Map::<ProcTagView, Seq<ProcTagView>>::empty(),
            r@.frozen == Set::<ProcTagView>::empty(),
    {
        let r = CausalGraph {
            tag_owner: TagMap::new(),
            join_links: TagMap::new(),
            rev_join_links: TagMap::new(),
            branch_links: TagMap::new(),
            frozen_tags: Vec::new(),
        };
        assert(r@.owner =~= Map::<ProcTagView, Seq<char>>::empty());
        assert(r@.join =~= Map::<ProcTagView, ProcTagView>::empty());
        assert(r@.rev =~= Map::<ProcTagView, (TaggedProcView, TaggedProcView)>::empty());
        assert(r@.branch =~= Map::<ProcTagView, Seq<ProcTagView>>::empty());
        assert(r@.frozen =~= Set::<ProcTagView>::empty());
        r
    }

    /// Whether `tag` is condemned.
    pub fn is_frozen(&self, tag: &ProcTag) -> (b: bool)
        ensures
            b == self@.frozen.contains(tag@),
    {
        tags_contain(&self.frozen_tags, tag)
    }

    /// The owner of `tag`, if it has one.
    pub fn owner_of(&self, tag: &ProcTag) -> (r: Option<String>)
        requires
            self.wf(),
        ensures
            match r {
                Some(id) => self@.owner.dom().contains(tag@) && id@ == self@.owner[tag@],
                None => !self@.owner.dom().contains(tag@),
            },
    {
        match self.tag_owner.get(tag) {
            Some(id) => Some(id.clone()),
            None => None,
        }
    }

    /// The tag of the step to which `tag` led, if it was consumed.
    pub fn successor_of(&self, tag: &ProcTag) -> (r: Option<ProcTag>)
        requires
            self.wf(),
        ensures
            match r {
                Some(next) => self@.join.dom().contains(tag@) && next@ == self@.join[tag@],
                None => !self@.join.dom().contains(tag@),
            },
    {
        match self.join_links.get(tag) {
            Some(next) => Some(next.clone()),
            None => None,
        }
    }

    /// The consumed fragments that are filed under `tag`, in the order in
    /// which they were consumed.
    pub fn fragments_of(&self, tag: &ProcTag) -> (r: Vec<ProcTag>)
        requires
            self.wf(),
        ensures
            views(r@) == (if self@.branch.dom().contains(tag@) {
                self@.branch[tag@]
            } else {
                Seq::empty()
            }),
    {
        let mut r: Vec<ProcTag> = Vec::new();
        match self.branch_links.get(tag) {
            Some(deps) => {
                let mut i: usize = 0;
                assert(views(deps@).take(0) =~= views(r@));
                while i < deps.len()
                    invariant
                        i <= deps.len(),
                        views(r@) == views(deps@).take(i as int),
                    decreases deps.len() - i,
                {
                    let c = deps[i].clone();
                    proof {
                        lemma_tags_push(r@, c);
                        assert(views(deps@).take(i + 1) =~= views(deps@).take(i as int).push(c@));
                    }
                    r.push(c);
                    i += 1;
                }
                assert(views(deps@).take(deps.len() as int) =~= views(deps@));
            },
            None => {
                assert(views(r@) =~= Seq::<ProcTagView>::empty());
            },
        }
        r
    }

    /// The tag cycle for one record: files the rendezvous in the graph and
    /// answers the receiver with the key of the step.
    pub fn record(&mut self, piece: MemoryPiece) -> (r: Confirmation)
        requires
            old(self).wf(),
        ensures
            final(self).wf(),
            final(self)@ == old(self)@.record(piece@),
            r@ == confirmation_of(piece@),
    {
        let ghost g = self@;
        let ghost m = piece@;
        let ((id_send, id_recv), sender, receiver, new_mem_tag) = piece.into_parts();
        let new_tag = ProcTag::PTKey(new_mem_tag.clone());
        self.tag_owner.insert(new_tag.clone(), id_recv.clone());
        self.tag_owner.insert(sender.tag.clone(), id_send);
        self.tag_owner.insert(receiver.tag.clone(), id_recv.clone());
        add_branch_link(&mut self.branch_links, &sender.tag);
        add_branch_link(&mut self.branch_links, &receiver.tag);
        self.join_links.insert(receiver.tag.clone(), new_tag.clone());
        self.join_links.insert(sender.tag.clone(), new_tag.clone());
        self.rev_join_links.insert(new_tag, (sender, receiver));
        proof {
            let h = g.record(m);
            assert(self@.owner =~= h.owner);
            assert(self@.join =~= h.join);
            assert(self@.rev =~= h.rev);
            assert(self@.branch =~= h.branch);
            assert(self@ == h);
            lemma_record_links_owned(g, m);
        }
        Confirmation { to: id_recv, tag: new_mem_tag }
    }

    /// The disappear cycle for one notice: the step tagged `tag` is
    /// forgotten, and each of the two units that it had consumed goes to the
    /// owner of the other one's tag. A step that is not on record is
    /// passed over. A record that does not pair a send with a receive is an
    /// error.
    pub fn retire(&mut self, tag: &ProcTag) -> (r: Result<
        Option<(RessurectNotice, RessurectNotice)>,
        HistoryError,
    >)
        requires
            old(self).wf(),
        ensures
            final(self).wf(),
            final(self)@ == old(self)@.retire(tag@),
            match r {
                Ok(None) => !old(self)@.rev.dom().contains(tag@),
                Ok(Some((to_sender, to_receiver))) => {
                    let pair = old(self)@.rev[tag@];
                    &&& old(self)@.rev.dom().contains(tag@)
                    &&& pair.0.proc is Send
                    &&& pair.1.proc is Recv
                    &&& to_sender@ == (
                        old(self)@.owner[pair.0.tag],
                        RessurectMsgView { dissapeared_tag: tag@, ress_tagged_proc: pair.1 },
                    )
                    &&& to_receiver@ == (
                        old(self)@.owner[pair.1.tag],
                        RessurectMsgView { dissapeared_tag: tag@, ress_tagged_proc: pair.0 },
                    )
                },
                Err(e) => {
                    let pair = old(self)@.rev[tag@];
                    &&& e == HistoryError::BrokenPair
                    &&& old(self)@.rev.dom().contains(tag@)
                    &&& !(pair.0.proc is Send && pair.1.proc is Recv)
                },
            },
    {
        let ghost g = self@;
        let removed = self.rev_join_links.remove(tag);
        proof {
            assert(self@.rev =~= g.retire(tag@).rev);
            assert(self@ == g.retire(tag@));
            assert forall|a: ProcTagView, b: ProcTagView| #[trigger] self@.edge(a, b) implies self@.owner.dom().contains(
                b,
            ) by {
                assert(g.edge(a, b));
            }
        }
        match removed {
            None => Ok(None),
            Some((sender, receiver)) => {
                assert(g.rev.dom().contains(tag@));
                let paired = match (&sender.proc, &receiver.proc) {
                    (Process::Send(_, _), Process::Recv(_, _, _, _)) => true,
                    _ => false,
                };
                if !paired {
                    return Err(HistoryError::BrokenPair);
                }
                let sender_id = self.tag_owner.get(&sender.tag).unwrap().clone();
                let receiver_id = self.tag_owner.get(&receiver.tag).unwrap().clone();
                let to_sender = RessurectNotice {
                    to: sender_id,
                    msg: RessurectMsg {
                        dissapeared_tag: tag.clone(),
                        ress_tagged_proc: receiver.clone(),
                    },
                };
                let to_receiver = RessurectNotice {
                    to: receiver_id,
                    msg: RessurectMsg { dissapeared_tag: tag.clone(), ress_tagged_proc: sender },
                };
                Ok(Some((to_sender, to_receiver)))
            },
        }
    }
}

impl CausalGraph {
    /// The rollback cycle for one request: condemns `tag` and, depth first
    /// along the edges, every tag that can be reached from it without
    /// passing a tag that is condemned already. The result holds one
    /// freeze notice for each tag that is newly condemned, for its owner, in
    /// the order of the search. A request for a tag that is condemned
    /// already changes nothing. A request for a tag that nobody owns is an
    /// error.
    pub fn rollback(&mut self, tag: ProcTag) -> (r: Result<Vec<FreezeNotice>, HistoryError>)
        requires
            old(self).wf(),
        ensures
            final(self).wf(),
            match r {
                Ok(notices) => {
                    &&& old(self)@.frozen.contains(tag@) || old(self)@.owner.dom().contains(tag@)
                    &&& final(self)@ == old(self)@.rollback(tag@)
                    &&& notice_tags(notices@).no_duplicates()
                    &&& notice_tags(notices@).to_set() == old(self)@.newly_frozen(tag@)
                    &&& forall|i: int|
                        0 <= i < notices.len() ==> old(self)@.owner.dom().contains(
                            (#[trigger] notices[i]).tag@,
                        ) && notices[i].to@ == old(self)@.owner[notices[i].tag@]
                },
                Err(e) => {
                    &&& e == HistoryError::UnknownTag
                    &&& !old(self)@.frozen.contains(tag@)
                    &&& !old(self)@.owner.dom().contains(tag@)
                    &&& final(self)@ == old(self)@
                },
            },
    {
        let ghost g = self@;
        let ghost t = tag@;
        let ghost f0 = g.frozen;
        if !tags_contain(&self.frozen_tags, &tag) && !self.tag_owner.contains_key(&tag) {
            return Err(HistoryError::UnknownTag);
        }
        let mut notices: Vec<FreezeNotice> = Vec::new();
        let mut stack: Vec<ProcTag> = Vec::new();
        proof {
            if !f0.contains(t) {
                lemma_reaches_self(g, f0, t);
            }
            lemma_tags_push(stack@, tag);
            assert(notice_tags(notices@) =~= Seq::<ProcTagView>::empty());
            assert(f0.union(notice_tags(notices@).to_set()) =~= f0);
            self.tag_owner.lemma_keys();
        }
        stack.push(tag);
        assert(views(stack@)[0] == t);
        while stack.len() > 0
            invariant
                self.tag_owner == old(self).tag_owner,
                self.join_links == old(self).join_links,
                self.rev_join_links == old(self).rev_join_links,
                self.branch_links == old(self).branch_links,
                old(self).wf(),
                g == old(self)@,
                f0 == g.frozen,
                views(self.frozen_tags@).to_set() == f0.union(notice_tags(notices@).to_set()),
                notice_tags(notices@).no_duplicates(),
                forall|i: int|
                    0 <= i < notices.len() ==> {
                        let n = #[trigger] notice_tags(notices@)[i];
                        &&& !f0.contains(n)
                        &&& g.reaches(f0, t, n)
                        &&& g.owner.dom().contains(n)
                        &&& notices[i].to@ == g.owner[n]
                    },
                forall|i: int, b: ProcTagView|
                    0 <= i < notices.len() && #[trigger] g.edge(notice_tags(notices@)[i], b)
                        ==> views(self.frozen_tags@).to_set().contains(b) || views(
                        stack@,
                    ).contains(b),
                forall|j: int|
                    0 <= j < stack.len() ==> {
                        let x = #[trigger] views(stack@)[j];
                        f0.contains(x) || (g.owner.dom().contains(x) && g.reaches(f0, t, x))
                    },
                views(self.frozen_tags@).to_set().contains(t) || views(stack@).contains(t),
            decreases
                    pending(old(self).tag_owner.key_seq(), views(self.frozen_tags@).to_set()),
                    stack.len(),
        {
            let ghost stack0 = views(stack@);
            let ghost frozen0 = views(self.frozen_tags@).to_set();
            let ghost nt0 = notice_tags(notices@);
            let p = stack.pop().unwrap();
            proof {
                assert(p@ == stack0[stack0.len() - 1]);
                assert(views(stack@) =~= stack0.drop_last());
            }
            if tags_contain(&self.frozen_tags, &p) {
                proof {
                    let s1 = views(stack@);
                    assert forall|b: ProcTagView| stack0.contains(b) implies frozen0.contains(b)
                        || s1.contains(b) by {
                        let j = choose|j: int| 0 <= j < stack0.len() && stack0[j] == b;
                        if j < s1.len() {
                            assert(s1[j] == b);
                        }
                    }
                    assert forall|j: int| 0 <= j < stack.len() implies {
                        let x = #[trigger] views(stack@)[j];
                        f0.contains(x) || (g.owner.dom().contains(x) && g.reaches(f0, t, x))
                    } by {
                        assert(s1[j] == stack0[j]);
                    }
                }
            } else {
                proof {
                    assert(!f0.contains(p@));
                    assert(g.owner.dom().contains(p@) && g.reaches(f0, t, p@));
                    old(self).tag_owner.lemma_keys();
                    lemma_pending_insert(old(self).tag_owner.key_seq(), frozen0, p@);
                }
                let owner = self.tag_owner.get(&p).unwrap().clone();
                let notice = FreezeNotice { to: owner, tag: p.clone() };
                let ghost notices0 = notices@;
                notices.push(notice);
                let pc = p.clone();
                proof {
                    lemma_tags_push(self.frozen_tags@, pc);
                }
                self.frozen_tags.push(pc);
                let ghost frozen1 = views(self.frozen_tags@).to_set();
                let ghost nt1 = notice_tags(notices@);
                proof {
                    assert(nt1 =~= nt0.push(p@));
                    assert(frozen1 == frozen0.insert(p@));
                    assert forall|n: ProcTagView| nt1.to_set().contains(n) <==> nt0.to_set().insert(
                        p@,
                    ).contains(n) by {
                        if nt1.contains(n) {
                            let i = choose|i: int| 0 <= i < nt1.len() && nt1[i] == n;
                            if i < nt0.len() {
                                assert(nt0[i] == n);
                            }
                        }
                        if nt0.contains(n) {
                            let i = choose|i: int| 0 <= i < nt0.len() && nt0[i] == n;
                            assert(nt1[i] == n);
                        }
                        if n == p@ {
                            assert(nt1[nt0.len() as int] == n);
                        }
                    }
                    assert(nt1.to_set() =~= nt0.to_set().insert(p@));
                    assert(frozen1 =~= f0.union(nt1.to_set()));
                    assert forall|a: int, b: int| 0 <= a < b < nt1.len() implies nt1[a] != nt1[b] by {
                        if b == nt0.len() {
                            assert(nt0[a] == nt1[a]);
                            assert(nt0.contains(nt0[a]));
                            assert(frozen0.contains(nt0[a]));
                        }
                    }
                    assert forall|i: int| 0 <= i < notices.len() implies {
                        let n = #[trigger] notice_tags(notices@)[i];
                        &&& !f0.contains(n)
                        &&& g.reaches(f0, t, n)
                        &&& g.owner.dom().contains(n)
                        &&& notices[i].to@ == g.owner[n]
                    } by {
                        if i < notices0.len() {
                            assert(notices[i] == notices0[i]);
                            assert(nt1[i] == notice_tags(notices0)[i]);
                        }
                    }
                }
                let ghost base = views(stack@);
                match self.branch_links.get(&p) {
                    Some(next_ps) => {
                        let n = next_ps.len();
                        let mut k: usize = n;
                        while k > 0
                            invariant
                                k <= n,
                                n == next_ps.len(),
                                stack.len() == base.len() + (n - k),
                                forall|j: int| 0 <= j < base.len() ==> views(stack@)[j] == base[j],
                                forall|idx: int|
                                    k <= idx < n ==> views(stack@)[base.len() + (n - 1 - idx)]
                                        == views(next_ps@)[idx],
                            decreases k,
                        {
                            k -= 1;
                            let c = next_ps[k].clone();
                            proof {
                                lemma_tags_push(stack@, c);
                            }
                            stack.push(c);
                        }
                    },
                    None => {},
                }
                let ghost mid = views(stack@);
                match self.join_links.get(&p) {
                    Some(next_p) => {
                        let c = next_p.clone();
                        proof {
                            lemma_tags_push(stack@, c);
                        }
                        stack.push(c);
                    },
                    None => {},
                }
                proof {
                    let s1 = views(stack@);
                    assert forall|j: int| 0 <= j < base.len() implies s1[j] == base[j] by {
                        assert(mid[j] == base[j]);
                    }
                    assert forall|b: ProcTagView| stack0.contains(b) implies frozen1.contains(b)
                        || s1.contains(b) by {
                        let j = choose|j: int| 0 <= j < stack0.len() && stack0[j] == b;
                        if j < base.len() {
                            assert(base[j] == b);
                            assert(s1[j] == b);
                        }
                    }
                    // every successor of the tag just condemned is on the stack
                    assert forall|b: ProcTagView| g.edge(p@, b) implies s1.contains(b) by {
                        if g.join.dom().contains(p@) && g.join[p@] == b {
                            assert(s1[s1.len() - 1] == b);
                        } else {
                            let deps = g.branch[p@];
                            let idx = choose|idx: int| 0 <= idx < deps.len() && deps[idx] == b;
                            let pos = base.len() + (deps.len() - 1 - idx);
                            assert(mid[pos] == b);
                            assert(s1[pos] == b);
                        }
                    }
                    assert forall|i: int, b: ProcTagView|
                        0 <= i < notices.len() && #[trigger] g.edge(
                            notice_tags(notices@)[i],
                            b,
                        ) implies frozen1.contains(b) || s1.contains(b) by {
                        if i < nt0.len() {
                            assert(nt1[i] == nt0[i]);
                            assert(frozen0.contains(b) || stack0.contains(b));
                        } else {
                            assert(nt1[i] == p@);
                        }
                    }
                    assert forall|j: int| 0 <= j < stack.len() implies {
                        let x = #[trigger] views(stack@)[j];
                        f0.contains(x) || (g.owner.dom().contains(x) && g.reaches(f0, t, x))
                    } by {
                        let x = s1[j];
                        if j < base.len() {
                            assert(s1[j] == base[j]);
                            assert(base[j] == stack0[j]);
                        } else {
                            // a successor of the tag just condemned
                            if j < mid.len() {
                                let deps = g.branch[p@];
                                let idx = deps.len() - 1 - (j - base.len());
                                assert(mid[base.len() + (deps.len() - 1 - idx)] == deps[idx]);
                                assert(s1[j] == mid[j]);
                                assert(deps.contains(x));
                                assert(g.edge(p@, x));
                            } else {
                                assert(g.edge(p@, x));
                            }
                            if !f0.contains(x) {
                                lemma_reaches_step(g, f0, t, p@, x);
                            }
                        }
                    }
                    if stack0.contains(t) {
                        assert(frozen1.contains(t) || s1.contains(t));
                    }
                }
            }
        }
        proof {
            let now = views(self.frozen_tags@).to_set();
            let nt = notice_tags(notices@);
            assert(views(stack@) =~= Seq::<ProcTagView>::empty());
            assert forall|a: ProcTagView, b: ProcTagView|
                now.contains(a) && !f0.contains(a) && #[trigger] g.edge(a, b) implies now.contains(
                b,
            ) by {
                assert(nt.contains(a));
                let i = choose|i: int| 0 <= i < nt.len() && nt[i] == a;
                assert(g.edge(notice_tags(notices@)[i], b));
                assert(!views(stack@).contains(b));
            }
            assert forall|x: ProcTagView| nt.to_set().contains(x) <==> g.newly_frozen(t).contains(
                x,
            ) by {
                if nt.contains(x) {
                    let i = choose|i: int| 0 <= i < nt.len() && nt[i] == x;
                    assert(g.reaches(f0, t, notice_tags(notices@)[i]));
                }
                if g.reaches(f0, t, x) {
                    let path = choose|path: Seq<ProcTagView>| #[trigger]
                        g.path(f0, path) && path[0] == t && path.last() == x;
                    assert(!f0.contains(path[0]));
                    assert(!views(stack@).contains(t));
                    lemma_path_frozen(g, f0, now, path, path.len() - 1);
                    assert(!f0.contains(path[path.len() - 1]));
                }
            }
            assert(nt.to_set() =~= g.newly_frozen(t));
            assert(self@.frozen =~= g.rollback(t).frozen);
            assert(self@ == g.rollback(t));
            assert forall|a: ProcTagView, b: ProcTagView| #[trigger] self@.edge(a, b) implies self@.owner.dom().contains(
                b,
            ) by {
                assert(g.edge(a, b));
            }
            assert forall|i: int| 0 <= i < notices.len() implies g.owner.dom().contains(
                (#[trigger] notices[i]).tag@,
            ) && notices[i].to@ == g.owner[notices[i].tag@] by {
                assert(notice_tags(notices@)[i] == notices[i].tag@);
            }
        }
        Ok(notices)
    }
}

} // verus!
