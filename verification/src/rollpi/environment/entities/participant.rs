//! The state of one participant and the steps that change it: taking up the
//! outcome of an action, freezing, disappearing and resurrecting.

use crate::rollpi::syntax::{
    views, PrimProcess, PrimeState, ProcTag, ProcTagView, Process, TagKey, TaggedPrimProc,
    TaggedPrimProcView, TaggedProc, TaggedProcView,
};
use crate::rollpi::environment::types::ProtocolError;
use vstd::prelude::*;

verus! {

/// What a participant holds: the units it may still schedule, the units it
/// has retired, and the tags that are condemned.
pub struct ParticipantState {
    pub dead_state: PrimeState,
    pub live_state: PrimeState,
    /// The condemned tags; the order and repetitions mean nothing.
    pub frozen_tags: Vec<ProcTag>,
}

/// The view of a `ParticipantState`.
pub struct ParticipantStateView {
    pub dead: Seq<TaggedPrimProcView>,
    pub live: Seq<TaggedPrimProcView>,
    pub frozen: Set<ProcTagView>,
}

impl View for ParticipantState {
    type V = ParticipantStateView;

    open spec fn view(&self) -> ParticipantStateView {
        ParticipantStateView {
            dead: views(self.dead_state@),
            live: views(self.live_state@),
            frozen: views(self.frozen_tags@).to_set(),
        }
    }
}

/// The outcome of one action: the index of the unit that ran and the units
/// that take its place.
pub struct PrimProcTransf(pub usize, pub PrimeState);

/// What the history tells an owner when the step tagged `dissapeared_tag`
/// has gone: the unit to take up again.
#[derive(Debug)]
pub struct RessurectMsg {
    pub dissapeared_tag: ProcTag,
    pub ress_tagged_proc: TaggedProc,
}

/// The view of a `RessurectMsg`.
pub struct RessurectMsgView {
    pub dissapeared_tag: ProcTagView,
    pub ress_tagged_proc: TaggedProcView,
}

impl View for RessurectMsg {
    type V = RessurectMsgView;

    open spec fn view(&self) -> RessurectMsgView {
        RessurectMsgView {
            dissapeared_tag: self.dissapeared_tag@,
            ress_tagged_proc: self.ress_tagged_proc@,
        }
    }
}

/// How many fragments of one split process a participant has found
/// condemned, each by its own tag, against how many the split made.
pub struct FamilyCount {
    pub orig: Seq<char>,
    pub declared: int,
    pub seen: int,
}

/// What the first sweep over the units gathers: the tags to report, the
/// condemned tags that are left, and the count of each condemned family in
/// the order in which the families were met.
pub struct Ledger {
    pub reported: Seq<ProcTagView>,
    pub frozen: Set<ProcTagView>,
    pub families: Seq<FamilyCount>,
}

/// The outcome of a sweep over one list of units.
pub struct Sweep {
    pub kept: Seq<TaggedPrimProcView>,
    pub ledger: Ledger,
}

/// Whether `families` counts the family of `orig`.
pub open spec fn knows_family(families: Seq<FamilyCount>, orig: Seq<char>) -> bool {
    exists|i: int| 0 <= i < families.len() && (#[trigger] families[i]).orig == orig
}

/// `families` with one more fragment of the family of `orig` seen; a family
/// met for the first time is filed with `total` as its size.
pub open spec fn count_fragment(families: Seq<FamilyCount>, total: int, orig: Seq<char>) -> Seq<
    FamilyCount,
> {
    if knows_family(families, orig) {
        Seq::new(
            families.len(),
            |i: int|
                if families[i].orig == orig {
                    FamilyCount {
                        orig: families[i].orig,
                        declared: families[i].declared,
                        seen: families[i].seen + 1,
                    }
                } else {
                    families[i]
                },
        )
    } else {
        families.push(FamilyCount { orig, declared: total, seen: 1 })
    }
}

/// Whether the first sweep keeps the unit `u`: it drops a unit with an
/// atomic tag that is condemned.
pub open spec fn sweep_keeps(ledger: Ledger, u: TaggedPrimProcView) -> bool {
    !(u.tag is Key && ledger.frozen.contains(u.tag))
}

/// The ledger after the first sweep has met the unit `u`. A condemned atomic
/// tag is reported and is condemned no more; a fragment whose own tag is
/// condemned is counted for its family.
pub open spec fn sweep_unit(ledger: Ledger, u: TaggedPrimProcView) -> Ledger {
    match u.tag {
        ProcTagView::Key(_) => if ledger.frozen.contains(u.tag) {
            Ledger {
                reported: ledger.reported.push(u.tag),
                frozen: ledger.frozen.remove(u.tag),
                families: ledger.families,
            }
        } else {
            ledger
        },
        ProcTagView::Split(_, total, orig) => if ledger.frozen.contains(u.tag) {
            Ledger {
                reported: ledger.reported,
                frozen: ledger.frozen,
                families: count_fragment(ledger.families, total, orig),
            }
        } else {
            ledger
        },
    }
}

/// The first sweep over `units`, from the first unit to the last, starting
/// from `ledger`.
pub open spec fn sweep_simple(ledger: Ledger, units: Seq<TaggedPrimProcView>) -> Sweep
    decreases units.len(),
{
    if units.len() == 0 {
        Sweep { kept: Seq::empty(), ledger }
    } else {
        let before = sweep_simple(ledger, units.drop_last());
        Sweep {
            kept: if sweep_keeps(before.ledger, units.last()) {
                before.kept.push(units.last())
            } else {
                before.kept
            },
            ledger: sweep_unit(before.ledger, units.last()),
        }
    }
}

/// Whether the family of `orig` is complete in `families`: as many
/// fragments seen as the split made.
pub open spec fn family_complete(families: Seq<FamilyCount>, orig: Seq<char>) -> bool {
    exists|i: int|
        0 <= i < families.len() && (#[trigger] families[i]).orig == orig && families[i].declared
            == families[i].seen
}

/// Whether `tag` is a fragment of a family that is complete in `families`.
pub open spec fn in_complete_family(families: Seq<FamilyCount>, tag: ProcTagView) -> bool {
    match tag {
        ProcTagView::Key(_) => false,
        ProcTagView::Split(_, _, orig) => family_complete(families, orig),
    }
}

/// `units` without the fragments of the families that are complete in
/// `families`.
pub open spec fn drop_families(families: Seq<FamilyCount>, units: Seq<TaggedPrimProcView>) -> Seq<
    TaggedPrimProcView,
>
    decreases units.len(),
{
    if units.len() == 0 {
        Seq::empty()
    } else {
        let before = drop_families(families, units.drop_last());
        if in_complete_family(families, units.last().tag) {
            before
        } else {
            before.push(units.last())
        }
    }
}

/// The original keys of the complete families of `families`, each as an
/// atomic tag, in the order of `families`.
pub open spec fn family_reports(families: Seq<FamilyCount>) -> Seq<ProcTagView>
    decreases families.len(),
{
    if families.len() == 0 {
        Seq::empty()
    } else {
        let before = family_reports(families.drop_last());
        if families.last().declared == families.last().seen {
            before.push(ProcTagView::Key(families.last().orig))
        } else {
            before
        }
    }
}

/// What a disappear step makes of a state, and what it reports.
pub struct Disappearance {
    pub state: ParticipantStateView,
    pub reports: Seq<ProcTagView>,
}

/// The disappear step. A first sweep over the live and then the dead units
/// drops each unit whose atomic tag is condemned, reports that tag and
/// condemns it no more, and counts, family by family, the fragments that
/// are condemned themselves. Then every family that is complete, with as
/// many condemned fragments at hand as its split made, loses all its
/// fragments, live and dead, and is reported once, under its original key;
/// its fragments are condemned no more.
pub open spec fn disappear_of(s: ParticipantStateView) -> Disappearance {
    let start = Ledger { reported: Seq::empty(), frozen: s.frozen, families: Seq::empty() };
    let live = sweep_simple(start, s.live);
    let dead = sweep_simple(live.ledger, s.dead);
    let families = dead.ledger.families;
    Disappearance {
        state: ParticipantStateView {
            live: drop_families(families, live.kept),
            dead: drop_families(families, dead.kept),
            frozen: dead.ledger.frozen.filter(|t: ProcTagView| !in_complete_family(families, t)),
        },
        reports: dead.ledger.reported + family_reports(families),
    }
}

/// Whether one of `tags` is `tag`.
pub fn tags_contain(tags: &Vec<ProcTag>, tag: &ProcTag) -> (b: bool)
    ensures
        b == views(tags@).to_set().contains(tag@),
{
    let mut i: usize = 0;
    while i < tags.len()
        invariant
            i <= tags.len(),
            forall|j: int| 0 <= j < i ==> views(tags@)[j] != tag@,
        decreases tags.len() - i,
    {
        if tags[i].same_as(tag) {
            assert(views(tags@)[i as int] == tag@);
            return true;
        }
        i += 1;
    }
    false
}

/// One family's count as a participant keeps it.
pub struct FamilyTally {
    pub orig: TagKey,
    pub declared: i32,
    pub seen: u128,
}

impl View for FamilyTally {
    type V = FamilyCount;

    open spec fn view(&self) -> FamilyCount {
        FamilyCount { orig: self.orig@, declared: self.declared as int, seen: self.seen as int }
    }
}

/// Whether no family is counted twice in `families`.
pub open spec fn distinct_families(families: Seq<FamilyCount>) -> bool {
    forall|i: int, j: int|
        0 <= i < j < families.len() ==> (#[trigger] families[i]).orig != (
        #[trigger] families[j]).orig
}

/// Which tags to take out of a list.
enum TagFilter<'a> {
    /// The tag itself.
    Exactly(&'a ProcTag),
    /// The fragments of the complete families.
    Complete(&'a Vec<FamilyTally>),
}

impl<'a> TagFilter<'a> {
    spec fn drops(&self, t: ProcTagView) -> bool {
        match self {
            TagFilter::Exactly(tag) => t == tag@,
            TagFilter::Complete(families) => in_complete_family(views(families@), t),
        }
    }

    fn test(&self, t: &ProcTag) -> (b: bool)
        ensures
            b == self.drops(t@),
    {
        match self {
            TagFilter::Exactly(tag) => t.same_as(tag),
            TagFilter::Complete(families) => match t {
                ProcTag::PTKey(_) => false,
                ProcTag::PTSplit(_, _, orig) => is_complete(families, orig),
            },
        }
    }
}

/// Whether the family of `orig` is complete in `families`.
fn is_complete(families: &Vec<FamilyTally>, orig: &TagKey) -> (b: bool)
    ensures
        b == family_complete(views(families@), orig@),
{
    let mut i: usize = 0;
    while i < families.len()
        invariant
            i <= families.len(),
            forall|j: int|
                0 <= j < i ==> !((#[trigger] views(families@)[j]).orig == orig@ && views(
                    families@,
                )[j].declared == views(families@)[j].seen),
        decreases families.len() - i,
    {
        let f = &families[i];
        if f.orig.same_as(orig) && f.declared >= 0 && f.declared as u128 == f.seen {
            assert(views(families@)[i as int].orig == orig@);
            return true;
        }
        i += 1;
    }
    false
}

/// Takes out of `tags` every tag that `filter` names.
fn drop_tags(tags: &mut Vec<ProcTag>, filter: &TagFilter)
    ensures
        views(final(tags)@).to_set() == views(old(tags)@).to_set().filter(
            |t: ProcTagView| !filter.drops(t),
        ),
{
    let ghost before = views(tags@);
    let mut i: usize = 0;
    let ghost mut done: int = 0;
    while i < tags.len()
        invariant
            i <= tags.len(),
            0 <= done <= before.len(),
            before.len() - done == tags.len() - i,
            views(tags@).subrange(i as int, tags.len() as int) == before.subrange(
                done,
                before.len() as int,
            ),
            forall|j: int| 0 <= j < i ==> !filter.drops(#[trigger] views(tags@)[j]),
            forall|j: int|
                0 <= j < i ==> before.subrange(0, done).contains(#[trigger] views(tags@)[j]),
            forall|j: int|
                0 <= j < done && !filter.drops(before[j]) ==> views(tags@).subrange(
                    0,
                    i as int,
                ).contains(#[trigger] before[j]),
        decreases tags.len() - i,
    {
        let ghost cur = views(tags@);
        assert(cur[i as int] == cur.subrange(i as int, tags.len() as int)[0]);
        assert(cur[i as int] == before[done]);
        if filter.test(&tags[i]) {
            tags.remove(i);
            proof {
                let now = views(tags@);
                assert(now.subrange(i as int, tags.len() as int) =~= cur.subrange(
                    i as int,
                    cur.len() as int,
                ).drop_first());
                assert(before.subrange(done + 1, before.len() as int) =~= before.subrange(
                    done,
                    before.len() as int,
                ).drop_first());
                assert forall|j: int| 0 <= j < i implies now[j] == cur[j] by {}
                assert forall|j: int| 0 <= j < i implies before.subrange(0, done + 1).contains(
                    #[trigger] now[j],
                ) by {
                    let k = choose|k: int|
                        0 <= k < done && before.subrange(0, done)[k] == cur[j];
                    assert(before.subrange(0, done + 1)[k] == now[j]);
                }
                assert forall|j: int|
                    0 <= j < done + 1 && !filter.drops(before[j]) implies now.subrange(
                    0,
                    i as int,
                ).contains(#[trigger] before[j]) by {
                    let k = choose|k: int|
                        0 <= k < i && cur.subrange(0, i as int)[k] == before[j];
                    assert(now.subrange(0, i as int)[k] == before[j]);
                }
                done = done + 1;
            }
        } else {
            proof {
                assert forall|j: int| 0 <= j < i + 1 implies before.subrange(0, done + 1).contains(
                    #[trigger] cur[j],
                ) by {
                    if j < i {
                        let k = choose|k: int|
                            0 <= k < done && before.subrange(0, done)[k] == cur[j];
                        assert(before.subrange(0, done + 1)[k] == cur[j]);
                    } else {
                        assert(before.subrange(0, done + 1)[done] == cur[j]);
                    }
                }
                assert forall|j: int|
                    0 <= j < done + 1 && !filter.drops(before[j]) implies cur.subrange(
                    0,
                    i + 1,
                ).contains(#[trigger] before[j]) by {
                    if j < done {
                        let k = choose|k: int|
                            0 <= k < i && cur.subrange(0, i as int)[k] == before[j];
                        assert(cur.subrange(0, i + 1)[k] == before[j]);
                    } else {
                        assert(cur.subrange(0, i + 1)[i as int] == before[j]);
                    }
                }
                assert(cur.subrange(i + 1, cur.len() as int) =~= cur.subrange(
                    i as int,
                    cur.len() as int,
                ).drop_first());
                assert(before.subrange(done + 1, before.len() as int) =~= before.subrange(
                    done,
                    before.len() as int,
                ).drop_first());
                done = done + 1;
            }
            i += 1;
        }
    }
    proof {
        let now = views(tags@);
        let keep = |t: ProcTagView| !filter.drops(t);
        assert(done == before.len());
        assert forall|t: ProcTagView| now.to_set().contains(t) <==> before.to_set().filter(
            keep,
        ).contains(t) by {
            if now.contains(t) {
                let j = choose|j: int| 0 <= j < now.len() && now[j] == t;
                assert(before.subrange(0, done).contains(now[j]));
                let k = choose|k: int| 0 <= k < done && before.subrange(0, done)[k] == now[j];
                assert(before[k] == t);
            }
            if before.contains(t) && keep(t) {
                let j = choose|j: int| 0 <= j < before.len() && before[j] == t;
                assert(now.subrange(0, i as int).contains(before[j]));
                let k = choose|k: int| 0 <= k < i && now.subrange(0, i as int)[k] == before[j];
                assert(now[k] == t);
            }
        }
        assert(now.to_set() =~= before.to_set().filter(keep));
    }
}

/// Takes every occurrence of `tag` out of `tags`.
pub fn remove_tag(tags: &mut Vec<ProcTag>, tag: &ProcTag)
    ensures
        views(final(tags)@).to_set() == views(old(tags)@).to_set().remove(tag@),
{
    let filter = TagFilter::Exactly(tag);
    drop_tags(tags, &filter);
    assert(views(old(tags)@).to_set().filter(|t: ProcTagView| !filter.drops(t)) =~= views(
        old(tags)@,
    ).to_set().remove(tag@));
}

impl ParticipantState {
    /// The state of a participant that starts with the units `state`.
    pub fn new(state: PrimeState) -> (r: Self)
        ensures
            r@.live == views(state@),
            r@.dead == Seq::<TaggedPrimProcView>::empty(),
            r@.frozen == Set::<ProcTagView>::empty(),
    {
        let r = ParticipantState {
            live_state: state,
            dead_state: Vec::new(),
            frozen_tags: Vec::new(),
        };
        assert(r@.dead =~= Seq::<TaggedPrimProcView>::empty());
        assert(r@.frozen =~= Set::<ProcTagView>::empty());
        r
    }

    /// Whether `tag` is condemned.
    pub fn is_frozen(&self, tag: &ProcTag) -> (b: bool)
        ensures
            b == self@.frozen.contains(tag@),
    {
        tags_contain(&self.frozen_tags, tag)
    }

    /// The freeze step for one notice: `tag` is condemned from now on.
    pub fn freeze(&mut self, tag: ProcTag)
        ensures
            final(self)@.frozen == old(self)@.frozen.insert(tag@),
            final(self)@.live == old(self)@.live,
            final(self)@.dead == old(self)@.dead,
    {
        let ghost before = views(self.frozen_tags@);
        if !tags_contain(&self.frozen_tags, &tag) {
            self.frozen_tags.push(tag);
            proof {
                let now = views(self.frozen_tags@);
                assert(now =~= before.push(tag@));
                assert forall|t: ProcTagView| now.to_set().contains(t) <==> before.to_set().insert(
                    tag@,
                ).contains(t) by {
                    if now.contains(t) {
                        let j = choose|j: int| 0 <= j < now.len() && now[j] == t;
                        if j < before.len() {
                            assert(before[j] == t);
                        }
                    }
                    if before.contains(t) {
                        let j = choose|j: int| 0 <= j < before.len() && before[j] == t;
                        assert(now[j] == t);
                    }
                    if t == tag@ {
                        assert(now[before.len() as int] == t);
                    }
                }
                assert(now.to_set() =~= before.to_set().insert(tag@));
            }
        } else {
            assert(before.to_set().insert(tag@) =~= before.to_set());
        }
    }

    /// Takes up the outcome of an action: the unit that ran leaves the live
    /// units, and is kept among the dead ones if it was an end or a rollback;
    /// the units that follow from it join the live units at the end.
    pub fn apply(&mut self, action: PrimProcTransf)
        requires
            action.0 < old(self)@.live.len(),
        ensures
            final(self)@.live == old(self)@.live.remove(action.0 as int) + views(action.1@),
            final(self)@.dead == (if old(self)@.live[action.0 as int].proc is End || old(
                self,
            )@.live[action.0 as int].proc is RollK {
                old(self)@.dead.push(old(self)@.live[action.0 as int])
            } else {
                old(self)@.dead
            }),
            final(self)@.frozen == old(self)@.frozen,
    {
        let PrimProcTransf(pos, mut proc) = action;
        let ghost live0 = self.live_state@;
        let ghost dead0 = self.dead_state@;
        let ghost new0 = proc@;
        let x = self.live_state.remove(pos);
        assert(x == live0[pos as int]);
        assert(views(live0)[pos as int] == x@);
        match x.proc {
            PrimProcess::RollK(_) | PrimProcess::End => {
                self.dead_state.push(x);
                assert(views(self.dead_state@) =~= views(dead0).push(x@));
            },
            _ => {},
        }
        self.live_state.append(&mut proc);
        assert(views(self.live_state@) =~= views(live0).remove(pos as int) + views(new0));
    }

    /// The resurrect step for one message: the unit that the message
    /// carries is condemned no more and joins the live units at the end.
    /// Only a send or a receive can be taken up again: with anything else the
    /// state stays as it is and the result is `false`.
    pub fn resurrect(&mut self, msg: &RessurectMsg) -> (ok: bool)
        ensures
            ok == resumable(msg@),
            !ok ==> final(self)@ == old(self)@,
            ok ==> final(self)@ == resurrect_of(old(self)@, msg@),
    {
        let is_send_recv = match &msg.ress_tagged_proc.proc {
            Process::Send(_, _) | Process::Recv(_, _, _, _) => true,
            _ => false,
        };
        if !is_send_recv {
            return false;
        }
        remove_tag(&mut self.frozen_tags, &msg.ress_tagged_proc.tag);
        let unit = TaggedPrimProc {
            tag: msg.ress_tagged_proc.tag.clone(),
            proc: msg.ress_tagged_proc.proc.to_prime_process(),
        };
        let ghost live0 = self.live_state@;
        self.live_state.push(unit);
        assert(views(self.live_state@) =~= views(live0).push(unit@));
        true
    }

    /// The freeze step: every tag of `tags` is condemned from now on.
    pub fn freeze_all(&mut self, tags: &Vec<ProcTag>)
        ensures
            final(self)@.frozen == old(self)@.frozen.union(views(tags@).to_set()),
            final(self)@.live == old(self)@.live,
            final(self)@.dead == old(self)@.dead,
    {
        let ghost all = views(tags@);
        let mut i: usize = 0;
        assert(all.take(0).to_set() =~= Set::<ProcTagView>::empty());
        assert(self@.frozen.union(Set::<ProcTagView>::empty()) =~= self@.frozen);
        while i < tags.len()
            invariant
                i <= tags.len(),
                all == views(tags@),
                self@.frozen == old(self)@.frozen.union(all.take(i as int).to_set()),
                self@.live == old(self)@.live,
                self@.dead == old(self)@.dead,
            decreases tags.len() - i,
        {
            let ghost before = self@.frozen;
            self.freeze(tags[i].clone());
            proof {
                let a = all.take(i as int);
                let b = all.take(i + 1);
                assert(b =~= a.push(all[i as int]));
                assert forall|t: ProcTagView| b.to_set().contains(t) <==> a.to_set().insert(
                    all[i as int],
                ).contains(t) by {
                    if b.contains(t) {
                        let j = choose|j: int| 0 <= j < b.len() && b[j] == t;
                        if j < a.len() {
                            assert(a[j] == t);
                        }
                    }
                    if a.contains(t) {
                        let j = choose|j: int| 0 <= j < a.len() && a[j] == t;
                        assert(b[j] == t);
                    }
                    if t == all[i as int] {
                        assert(b[a.len() as int] == t);
                    }
                }
                assert(b.to_set() =~= a.to_set().insert(all[i as int]));
                assert(self@.frozen =~= old(self)@.frozen.union(b.to_set()));
            }
            i += 1;
        }
        assert(all.take(tags.len() as int) =~= all);
    }

    /// The resurrect step: takes up the units of `msgs`, one after the
    /// other. It stops at the first message whose unit is neither a send nor a
    /// receive, which is an error.
    pub fn resurrect_all(&mut self, msgs: &Vec<RessurectMsg>) -> (r: Result<(), ProtocolError>)
        ensures
            match r {
                Ok(_) => {
                    &&& forall|i: int| 0 <= i < msgs.len() ==> resumable((#[trigger] msgs[i])@)
                    &&& final(self)@ == resurrect_seq(old(self)@, views(msgs@), msgs.len() as int)
                },
                Err(e) => {
                    &&& e == ProtocolError::NotResumable
                    &&& exists|k: int|
                        0 <= k < msgs.len() && !resumable((#[trigger] msgs[k])@) && (forall|i: int|
                            0 <= i < k ==> resumable((#[trigger] msgs[i])@)) && final(self)@
                            == resurrect_seq(old(self)@, views(msgs@), k)
                },
            },
    {
        let mut i: usize = 0;
        while i < msgs.len()
            invariant
                i <= msgs.len(),
                forall|j: int| 0 <= j < i ==> resumable((#[trigger] msgs[j])@),
                self@ == resurrect_seq(old(self)@, views(msgs@), i as int),
            decreases msgs.len() - i,
        {
            assert(views(msgs@)[i as int] == msgs[i as int]@);
            if !self.resurrect(&msgs[i]) {
                return Err(ProtocolError::NotResumable);
            }
            i += 1;
        }
        Ok(())
    }
}

/// Whether the unit of `msg` can be taken up again: it is a send or a
/// receive.
pub open spec fn resumable(msg: RessurectMsgView) -> bool {
    msg.ress_tagged_proc.proc is Send || msg.ress_tagged_proc.proc is Recv
}

/// The state once the unit of `msg` is taken up again: its tag is condemned
/// no more, and it is the last of the live units.
pub open spec fn resurrect_of(s: ParticipantStateView, msg: RessurectMsgView) -> ParticipantStateView {
    ParticipantStateView {
        live: s.live.push(
            TaggedPrimProcView {
                tag: msg.ress_tagged_proc.tag,
                proc: msg.ress_tagged_proc.proc.to_prime(),
            },
        ),
        dead: s.dead,
        frozen: s.frozen.remove(msg.ress_tagged_proc.tag),
    }
}

/// The state once the units of the first `n` of `msgs` are taken up again.
pub open spec fn resurrect_seq(
    s: ParticipantStateView,
    msgs: Seq<RessurectMsgView>,
    n: int,
) -> ParticipantStateView
    decreases n,
{
    if n <= 0 {
        s
    } else {
        resurrect_of(resurrect_seq(s, msgs, n - 1), msgs[n - 1])
    }
}

/// The place of the family of `orig` in `families`, or the length of
/// `families` where it is not counted yet.
fn find_family(families: &Vec<FamilyTally>, orig: &TagKey) -> (i: usize)
    ensures
        i <= families.len(),
        i < families.len() ==> views(families@)[i as int].orig == orig@,
        forall|j: int| 0 <= j < i ==> (#[trigger] views(families@)[j]).orig != orig@,
{
    let mut i: usize = 0;
    while i < families.len()
        invariant
            i <= families.len(),
            forall|j: int| 0 <= j < i ==> (#[trigger] views(families@)[j]).orig != orig@,
        decreases families.len() - i,
    {
        if families[i].orig.same_as(orig) {
            return i;
        }
        i += 1;
    }
    i
}

/// Counts one more fragment of the family of `orig`, whose split made
/// `total` fragments.
fn note_fragment(families: &mut Vec<FamilyTally>, total: i32, orig: &TagKey, Ghost(cap): Ghost<nat>)
    requires
        distinct_families(views(old(families)@)),
        forall|i: int| 0 <= i < old(families).len() ==> (#[trigger] old(families)[i]).seen <= cap,
        cap < u128::MAX,
    ensures
        views(final(families)@) == count_fragment(views(old(families)@), total as int, orig@),
        distinct_families(views(final(families)@)),
        forall|i: int| 0 <= i < final(families).len() ==> (#[trigger] final(families)[i]).seen <= cap + 1,
{
    let ghost before = views(families@);
    let i = find_family(families, orig);
    if i < families.len() {
        assert(before[i as int].orig == orig@);
        assert(knows_family(before, orig@));
        let f = families.remove(i);
        let g = FamilyTally { orig: f.orig, declared: f.declared, seen: f.seen + 1 };
        families.insert(i, g);
        proof {
            let now = views(families@);
            let want = count_fragment(before, total as int, orig@);
            assert(now.len() == want.len());
            assert forall|j: int| 0 <= j < now.len() implies now[j] == want[j] by {
                if j != i {
                    assert(now[j] == before[j]);
                    if j < i {
                        assert(before[j].orig != orig@);
                    } else {
                        assert(before[i as int].orig != before[j].orig);
                    }
                }
            }
            assert(now =~= want);
            assert forall|a: int, b: int| 0 <= a < b < now.len() implies (#[trigger] now[a]).orig != (
            #[trigger] now[b]).orig by {
                assert(now[a].orig == before[a].orig);
                assert(now[b].orig == before[b].orig);
            }
            assert forall|j: int| 0 <= j < families.len() implies (#[trigger] families[j]).seen
                <= cap + 1 by {
                if j != i {
                    assert(families[j] == old(families)[j]);
                }
            }
        }
    } else {
        assert(!knows_family(before, orig@));
        let g = FamilyTally { orig: orig.clone(), declared: total, seen: 1 };
        families.push(g);
        proof {
            let now = views(families@);
            assert(now =~= before.push(g@));
            assert forall|a: int, b: int| 0 <= a < b < now.len() implies (#[trigger] now[a]).orig != (
            #[trigger] now[b]).orig by {
                if b < before.len() {
                    assert(now[a] == before[a]);
                    assert(now[b] == before[b]);
                } else {
                    assert(now[a] == before[a]);
                }
            }
            assert forall|j: int| 0 <= j < families.len() implies (#[trigger] families[j]).seen
                <= cap + 1 by {
                if j < old(families).len() {
                    assert(families[j] == old(families)[j]);
                }
            }
        }
    }
}

/// The ledger that the three lists stand for.
pub open spec fn ledger_of(
    reported: Seq<ProcTag>,
    frozen: Seq<ProcTag>,
    families: Seq<FamilyTally>,
) -> Ledger {
    Ledger {
        reported: views(reported),
        frozen: views(frozen).to_set(),
        families: views(families),
    }
}

/// The first sweep over `units`.
fn sweep(
    units: &mut Vec<TaggedPrimProc>,
    frozen: &mut Vec<ProcTag>,
    reported: &mut Vec<ProcTag>,
    families: &mut Vec<FamilyTally>,
    Ghost(cap): Ghost<nat>,
)
    requires
        distinct_families(views(old(families)@)),
        forall|i: int| 0 <= i < old(families).len() ==> (#[trigger] old(families)[i]).seen <= cap,
        cap + old(units).len() < u128::MAX,
    ensures
        sweep_simple(
            ledger_of(old(reported)@, old(frozen)@, old(families)@),
            views(old(units)@),
        ) == (Sweep {
            kept: views(final(units)@),
            ledger: ledger_of(final(reported)@, final(frozen)@, final(families)@),
        }),
        distinct_families(views(final(families)@)),
        forall|i: int|
            0 <= i < final(families).len() ==> (#[trigger] final(families)[i]).seen <= cap + old(
                units,
            ).len(),
{
    let ghost start = ledger_of(reported@, frozen@, families@);
    let ghost all = views(units@);
    let mut i: usize = 0;
    let ghost mut done: int = 0;
    assert(all.take(0) =~= Seq::<TaggedPrimProcView>::empty());
    assert(views(units@).subrange(0, 0) =~= Seq::<TaggedPrimProcView>::empty());
    while i < units.len()
        invariant
            i <= units.len(),
            0 <= done <= all.len(),
            all.len() - done == units.len() - i,
            all.len() == old(units).len(),
            cap + old(units).len() < u128::MAX,
            views(units@).subrange(i as int, units.len() as int) == all.subrange(
                done,
                all.len() as int,
            ),
            sweep_simple(start, all.take(done)) == (Sweep {
                kept: views(units@).subrange(0, i as int),
                ledger: ledger_of(reported@, frozen@, families@),
            }),
            distinct_families(views(families@)),
            forall|j: int| 0 <= j < families.len() ==> (#[trigger] families[j]).seen <= cap + done,
        decreases units.len() - i,
    {
        let ghost cur = views(units@);
        proof {
            assert(cur[i as int] == cur.subrange(i as int, units.len() as int)[0]);
            assert(cur[i as int] == all[done]);
            assert(all.take(done + 1).drop_last() =~= all.take(done));
            assert(all.take(done + 1).last() == all[done]);
            assert(cur.subrange(i + 1, cur.len() as int) =~= cur.subrange(
                i as int,
                cur.len() as int,
            ).drop_first());
            assert(all.subrange(done + 1, all.len() as int) =~= all.subrange(
                done,
                all.len() as int,
            ).drop_first());
        }
        let tag = units[i].tag.clone();
        let mut dropped = false;
        match &tag {
            ProcTag::PTKey(_) => {
                if tags_contain(frozen, &tag) {
                    remove_tag(frozen, &tag);
                    let ghost rep = reported@;
                    let c = tag.clone();
                    reported.push(c);
                    assert(views(reported@) =~= views(rep).push(tag@));
                    units.remove(i);
                    dropped = true;
                    proof {
                        let now = views(units@);
                        assert(now.subrange(i as int, units.len() as int) =~= cur.subrange(
                            i + 1,
                            cur.len() as int,
                        ));
                        assert(now.subrange(0, i as int) =~= cur.subrange(0, i as int));
                    }
                }
            },
            ProcTag::PTSplit(_, total, orig) => {
                if tags_contain(frozen, &tag) {
                    note_fragment(families, *total, orig, Ghost((cap + done) as nat));
                }
            },
        }
        if !dropped {
            proof {
                assert(cur.subrange(0, i + 1) =~= cur.subrange(0, i as int).push(cur[i as int]));
            }
            i += 1;
        }
        proof {
            done = done + 1;
        }
    }
    proof {
        assert(all.take(done) =~= all);
        assert(views(units@).subrange(0, i as int) =~= views(units@));
    }
}

/// Takes the fragments of the complete families out of `units`.
fn drop_complete(units: &mut Vec<TaggedPrimProc>, families: &Vec<FamilyTally>)
    ensures
        views(final(units)@) == drop_families(views(families@), views(old(units)@)),
{
    let ghost all = views(units@);
    let ghost fam = views(families@);
    let mut i: usize = 0;
    let ghost mut done: int = 0;
    assert(all.take(0) =~= Seq::<TaggedPrimProcView>::empty());
    assert(views(units@).subrange(0, 0) =~= Seq::<TaggedPrimProcView>::empty());
    while i < units.len()
        invariant
            i <= units.len(),
            0 <= done <= all.len(),
            all.len() - done == units.len() - i,
            fam == views(families@),
            views(units@).subrange(i as int, units.len() as int) == all.subrange(
                done,
                all.len() as int,
            ),
            drop_families(fam, all.take(done)) == views(units@).subrange(0, i as int),
        decreases units.len() - i,
    {
        let ghost cur = views(units@);
        proof {
            assert(cur[i as int] == cur.subrange(i as int, units.len() as int)[0]);
            assert(cur[i as int] == all[done]);
            assert(all.take(done + 1).drop_last() =~= all.take(done));
            assert(all.take(done + 1).last() == all[done]);
            assert(cur.subrange(i + 1, cur.len() as int) =~= cur.subrange(
                i as int,
                cur.len() as int,
            ).drop_first());
            assert(all.subrange(done + 1, all.len() as int) =~= all.subrange(
                done,
                all.len() as int,
            ).drop_first());
        }
        let gone = match &units[i].tag {
            ProcTag::PTKey(_) => false,
            ProcTag::PTSplit(_, _, orig) => is_complete(families, orig),
        };
        if gone {
            units.remove(i);
            proof {
                let now = views(units@);
                assert(now.subrange(i as int, units.len() as int) =~= cur.subrange(
                    i + 1,
                    cur.len() as int,
                ));
                assert(now.subrange(0, i as int) =~= cur.subrange(0, i as int));
            }
        } else {
            proof {
                assert(cur.subrange(0, i + 1) =~= cur.subrange(0, i as int).push(cur[i as int]));
            }
            i += 1;
        }
        proof {
            done = done + 1;
        }
    }
    proof {
        assert(all.take(done) =~= all);
        assert(views(units@).subrange(0, i as int) =~= views(units@));
    }
}

/// Adds to `reported` the original key of each complete family.
fn report_families(reported: &mut Vec<ProcTag>, families: &Vec<FamilyTally>)
    ensures
        views(final(reported)@) == views(old(reported)@) + family_reports(views(families@)),
{
    let ghost fam = views(families@);
    let ghost base = views(reported@);
    let mut i: usize = 0;
    assert(fam.take(0) =~= Seq::<FamilyCount>::empty());
    assert(base + Seq::<ProcTagView>::empty() =~= base);
    while i < families.len()
        invariant
            i <= families.len(),
            fam == views(families@),
            views(reported@) == base + family_reports(fam.take(i as int)),
        decreases families.len() - i,
    {
        proof {
            assert(fam.take(i + 1).drop_last() =~= fam.take(i as int));
            assert(fam.take(i + 1).last() == fam[i as int]);
        }
        let f = &families[i];
        if f.declared >= 0 && f.declared as u128 == f.seen {
            let ghost rep = reported@;
            let t = ProcTag::PTKey(f.orig.clone());
            reported.push(t);
            assert(views(reported@) =~= views(rep).push(t@));
            assert(base + family_reports(fam.take(i as int)).push(t@) =~= (base + family_reports(
                fam.take(i as int),
            )).push(t@));
        }
        i += 1;
    }
    assert(fam.take(families.len() as int) =~= fam);
}

impl ParticipantState {
    /// The disappear step; the result holds the tags to report to the
    /// history, in order.
    pub fn disappear(&mut self) -> (reports: Vec<ProcTag>)
        ensures
            final(self)@ == disappear_of(old(self)@).state,
            views(reports@) == disappear_of(old(self)@).reports,
    {
        let mut reported: Vec<ProcTag> = Vec::new();
        let mut families: Vec<FamilyTally> = Vec::new();
        let ghost s = self@;
        let ghost start = Ledger {
            reported: Seq::empty(),
            frozen: s.frozen,
            families: Seq::empty(),
        };
        assert(ledger_of(reported@, self.frozen_tags@, families@) == start) by {
            assert(views(reported@) =~= Seq::<ProcTagView>::empty());
            assert(views(families@) =~= Seq::<FamilyCount>::empty());
        }
        let ghost n_live = self.live_state.len() as nat;
        sweep(
            &mut self.live_state,
            &mut self.frozen_tags,
            &mut reported,
            &mut families,
            Ghost(0nat),
        );
        sweep(
            &mut self.dead_state,
            &mut self.frozen_tags,
            &mut reported,
            &mut families,
            Ghost(n_live),
        );
        drop_complete(&mut self.live_state, &families);
        drop_complete(&mut self.dead_state, &families);
        report_families(&mut reported, &families);
        let filter = TagFilter::Complete(&families);
        drop_tags(&mut self.frozen_tags, &filter);
        proof {
            let want = disappear_of(s);
            let fam = views(families@);
            assert(self@.frozen =~= want.state.frozen) by {
                let live = sweep_simple(start, s.live);
                let dead = sweep_simple(live.ledger, s.dead);
                assert(dead.ledger.frozen.filter(|t: ProcTagView| !filter.drops(t))
                    =~= dead.ledger.frozen.filter(|t: ProcTagView| !in_complete_family(fam, t)));
            }
            assert(self@.live == want.state.live);
            assert(self@.dead == want.state.dead);
        }
        reported
    }
}

/// Whether `after` is `before` once the `pos`-th live unit has run and
/// left `units`: the unit was live and not condemned; it has left the live
/// units, and is kept among the dead ones if it was an end or a rollback;
/// `units` have joined the live units at the end.
pub open spec fn ran_unit(
    before: ParticipantStateView,
    after: ParticipantStateView,
    pos: int,
    units: Seq<TaggedPrimProcView>,
) -> bool {
    &&& 0 <= pos < before.live.len()
    &&& !before.frozen.contains(before.live[pos].tag)
    &&& after.live == before.live.remove(pos) + units
    &&& after.dead == (if before.live[pos].proc is End || before.live[pos].proc is RollK {
        before.dead.push(before.live[pos])
    } else {
        before.dead
    })
    &&& after.frozen == before.frozen
}

/// Whether `after` is what an evolve step makes of `before`: nothing, or
/// one unit run.
pub open spec fn evolved(before: ParticipantStateView, after: ParticipantStateView) -> bool {
    after == before || exists|pos: int, units: Seq<TaggedPrimProcView>| #[trigger]
        ran_unit(before, after, pos, units)
}

/// The state with the tags of `tags` condemned as well.
pub open spec fn freeze_all_of(s: ParticipantStateView, tags: Seq<ProcTagView>) -> ParticipantStateView {
    ParticipantStateView { live: s.live, dead: s.dead, frozen: s.frozen.union(tags.to_set()) }
}

/// Whether `after` is what a freeze step makes of `before`: some tags
/// condemned as well.
pub open spec fn froze(before: ParticipantStateView, after: ParticipantStateView) -> bool {
    exists|tags: Seq<ProcTagView>| after == #[trigger] freeze_all_of(before, tags)
}

/// Whether `after` is what a resurrect step makes of `before`: the units
/// of some messages taken up again, one after the other. The step is
/// `complete` where it took up the units of all messages; else it stopped
/// at the first unit that is neither a send nor a receive.
pub open spec fn took_up(
    before: ParticipantStateView,
    after: ParticipantStateView,
    complete: bool,
) -> bool {
    exists|msgs: Seq<RessurectMsgView>, k: int|
        {
            &&& 0 <= k <= msgs.len()
            &&& forall|i: int| 0 <= i < k ==> resumable(#[trigger] msgs[i])
            &&& after == #[trigger] resurrect_seq(before, msgs, k)
            &&& if complete {
                k == msgs.len()
            } else {
                k < msgs.len() && !resumable(msgs[k])
            }
        }
}

/// Whether `after` is what one round makes of `before`: an evolve step, a
/// freeze step, the disappear step and a resurrect step, in this order.
pub open spec fn participant_round(
    before: ParticipantStateView,
    after: ParticipantStateView,
    complete: bool,
) -> bool {
    exists|s1: ParticipantStateView, s2: ParticipantStateView|
        #![trigger froze(s1, s2)]
        evolved(before, s1) && froze(s1, s2) && took_up(disappear_of(s2).state, after, complete)
}

} // verus!
