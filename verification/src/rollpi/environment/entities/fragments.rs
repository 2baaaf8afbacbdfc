//! What holds of every disappear step: a split process leaves as a whole or
//! not at all.

use super::participant::{
    count_fragment, disappear_of, distinct_families, drop_families, family_complete,
    family_reports, in_complete_family, knows_family, sweep_simple, sweep_unit, FamilyCount,
    Ledger, ParticipantStateView,
};
use crate::rollpi::syntax::{ProcTagView, TaggedPrimProcView};
use vstd::prelude::*;

verus! {

/// Whether `tag` is a fragment of the process whose key is `orig`.
pub open spec fn is_fragment_of(tag: ProcTagView, orig: Seq<char>) -> bool {
    tag matches ProcTagView::Split(_, _, o) && o == orig
}

/// How many of `units` are fragments of the process whose key is `orig`.
pub open spec fn fragments_of(units: Seq<TaggedPrimProcView>, orig: Seq<char>) -> nat
    decreases units.len(),
{
    if units.len() == 0 {
        0
    } else {
        fragments_of(units.drop_last(), orig) + if is_fragment_of(units.last().tag, orig) {
            1nat
        } else {
            0nat
        }
    }
}

/// The families that the disappear step counts in the state `s`.
pub open spec fn disappear_families(s: ParticipantStateView) -> Seq<FamilyCount> {
    let start = Ledger { reported: Seq::empty(), frozen: s.frozen, families: Seq::empty() };
    sweep_simple(sweep_simple(start, s.live).ledger, s.dead).ledger.families
}

proof fn lemma_fragments_push(units: Seq<TaggedPrimProcView>, u: TaggedPrimProcView, orig: Seq<char>)
    ensures
        fragments_of(units.push(u), orig) == fragments_of(units, orig) + if is_fragment_of(
            u.tag,
            orig,
        ) {
            1nat
        } else {
            0nat
        },
{
    assert(units.push(u).drop_last() =~= units);
}

proof fn lemma_fragments_add(
    a: Seq<TaggedPrimProcView>,
    b: Seq<TaggedPrimProcView>,
    orig: Seq<char>,
)
    ensures
        fragments_of(a + b, orig) == fragments_of(a, orig) + fragments_of(b, orig),
    decreases b.len(),
{
    if b.len() == 0 {
        assert(a + b =~= a);
    } else {
        lemma_fragments_add(a, b.drop_last(), orig);
        assert((a + b).drop_last() =~= a + b.drop_last());
        assert((a + b).last() == b.last());
    }
}

/// The first sweep drops no fragment.
proof fn lemma_sweep_keeps_fragments(
    ledger: Ledger,
    units: Seq<TaggedPrimProcView>,
    orig: Seq<char>,
)
    ensures
        fragments_of(sweep_simple(ledger, units).kept, orig) == fragments_of(units, orig),
    decreases units.len(),
{
    if units.len() > 0 {
        lemma_sweep_keeps_fragments(ledger, units.drop_last(), orig);
        let before = sweep_simple(ledger, units.drop_last());
        lemma_fragments_push(before.kept, units.last(), orig);
    }
}

/// The second sweep drops all fragments of a complete family and none of
/// any other.
proof fn lemma_drop_families_fragments(
    families: Seq<FamilyCount>,
    units: Seq<TaggedPrimProcView>,
    orig: Seq<char>,
)
    ensures
        fragments_of(drop_families(families, units), orig) == if family_complete(families, orig) {
            0nat
        } else {
            fragments_of(units, orig)
        },
    decreases units.len(),
{
    if units.len() > 0 {
        lemma_drop_families_fragments(families, units.drop_last(), orig);
        let before = drop_families(families, units.drop_last());
        if !in_complete_family(families, units.last().tag) {
            lemma_fragments_push(before, units.last(), orig);
        }
    }
}

/// How many of `units` are fragments of the process whose key is `orig`
/// and are condemned themselves: their own tag is in `frozen`.
pub open spec fn condemned_fragments_of(
    units: Seq<TaggedPrimProcView>,
    frozen: Set<ProcTagView>,
    orig: Seq<char>,
) -> nat
    decreases units.len(),
{
    if units.len() == 0 {
        0
    } else {
        condemned_fragments_of(units.drop_last(), frozen, orig) + if is_fragment_of(
            units.last().tag,
            orig,
        ) && frozen.contains(units.last().tag) {
            1nat
        } else {
            0nat
        }
    }
}

/// Whether one of `units` is a condemned fragment of the process whose key
/// is `orig` and says that the split made `n` fragments.
pub open spec fn shows_size(
    units: Seq<TaggedPrimProcView>,
    frozen: Set<ProcTagView>,
    orig: Seq<char>,
    n: int,
) -> bool {
    exists|j: int|
        0 <= j < units.len() && frozen.contains((#[trigger] units[j]).tag) && (
        units[j].tag matches ProcTagView::Split(_, m, o) && o == orig && m == n)
}

proof fn lemma_condemned_push(
    units: Seq<TaggedPrimProcView>,
    u: TaggedPrimProcView,
    frozen: Set<ProcTagView>,
    orig: Seq<char>,
)
    ensures
        condemned_fragments_of(units.push(u), frozen, orig) == condemned_fragments_of(
            units,
            frozen,
            orig,
        ) + if is_fragment_of(u.tag, orig) && frozen.contains(u.tag) {
            1nat
        } else {
            0nat
        },
{
    assert(units.push(u).drop_last() =~= units);
}

/// What holds of a ledger while the first sweep runs over units of a state
/// whose condemned tags were `frozen0`, once it has met `met`: it condemns
/// nothing new and sets no fragment free; it counts no family twice; and it
/// counts in each family exactly the condemned fragments that it has met,
/// under the size that one of them shows. A family that it does not count
/// has no condemned fragment among the units met.
spec fn ledger_sound(frozen0: Set<ProcTagView>, met: Seq<TaggedPrimProcView>, l: Ledger) -> bool {
    &&& l.frozen.subset_of(frozen0)
    &&& forall|t: ProcTagView| t is Split && frozen0.contains(t) ==> #[trigger] l.frozen.contains(t)
    &&& distinct_families(l.families)
    &&& forall|i: int|
        0 <= i < l.families.len() ==> 1 <= (#[trigger] l.families[i]).seen
            == condemned_fragments_of(met, frozen0, l.families[i].orig) && shows_size(
            met,
            frozen0,
            l.families[i].orig,
            l.families[i].declared,
        )
    &&& forall|orig: Seq<char>|
        !knows_family(l.families, orig) ==> #[trigger] condemned_fragments_of(met, frozen0, orig)
            == 0
}

proof fn lemma_shows_size_push(
    met: Seq<TaggedPrimProcView>,
    u: TaggedPrimProcView,
    frozen: Set<ProcTagView>,
    orig: Seq<char>,
    n: int,
)
    requires
        shows_size(met, frozen, orig, n),
    ensures
        shows_size(met.push(u), frozen, orig, n),
{
    let j = choose|j: int|
        0 <= j < met.len() && frozen.contains((#[trigger] met[j]).tag) && (
        met[j].tag matches ProcTagView::Split(_, m, o) && o == orig && m == n);
    assert(met.push(u)[j] == met[j]);
}

proof fn lemma_sweep_unit_sound(
    frozen0: Set<ProcTagView>,
    met: Seq<TaggedPrimProcView>,
    l: Ledger,
    u: TaggedPrimProcView,
)
    requires
        ledger_sound(frozen0, met, l),
    ensures
        ledger_sound(frozen0, met.push(u), sweep_unit(l, u)),
{
    let l2 = sweep_unit(l, u);
    let met2 = met.push(u);
    let f = l.families;
    let g = l2.families;
    assert forall|orig: Seq<char>| #![auto] true implies condemned_fragments_of(met2, frozen0, orig)
        == condemned_fragments_of(met, frozen0, orig) + if is_fragment_of(u.tag, orig)
        && frozen0.contains(u.tag) {
        1nat
    } else {
        0nat
    } by {
        lemma_condemned_push(met, u, frozen0, orig);
    }
    assert forall|i: int| 0 <= i < f.len() implies shows_size(
        met2,
        frozen0,
        (#[trigger] f[i]).orig,
        f[i].declared,
    ) by {
        lemma_shows_size_push(met, u, frozen0, f[i].orig, f[i].declared);
    }
    match u.tag {
        ProcTagView::Key(_) => {
            assert(g == f);
            assert forall|i: int| 0 <= i < g.len() implies 1 <= (#[trigger] g[i]).seen
                == condemned_fragments_of(met2, frozen0, g[i].orig) && shows_size(
                met2,
                frozen0,
                g[i].orig,
                g[i].declared,
            ) by {
                lemma_condemned_push(met, u, frozen0, f[i].orig);
            }
            assert forall|orig: Seq<char>| !knows_family(g, orig) implies #[trigger] condemned_fragments_of(
                met2,
                frozen0,
                orig,
            ) == 0 by {
                lemma_condemned_push(met, u, frozen0, orig);
            }
        },
        ProcTagView::Split(_, total, orig_u) => {
            if l.frozen.contains(u.tag) {
                assert(frozen0.contains(u.tag));
                assert(met2[met.len() as int] == u);
                if knows_family(f, orig_u) {
                    assert forall|a: int, b: int| 0 <= a < b < g.len() implies (#[trigger] g[a]).orig
                        != (#[trigger] g[b]).orig by {
                        assert(g[a].orig == f[a].orig);
                        assert(g[b].orig == f[b].orig);
                    }
                    assert forall|i: int| 0 <= i < g.len() implies 1 <= (#[trigger] g[i]).seen
                        == condemned_fragments_of(met2, frozen0, g[i].orig) && shows_size(
                        met2,
                        frozen0,
                        g[i].orig,
                        g[i].declared,
                    ) by {
                        assert(g[i].orig == f[i].orig);
                        assert(g[i].declared == f[i].declared);
                        lemma_condemned_push(met, u, frozen0, f[i].orig);
                        lemma_shows_size_push(met, u, frozen0, f[i].orig, f[i].declared);
                    }
                    assert forall|orig: Seq<char>| !knows_family(g, orig) implies #[trigger] condemned_fragments_of(
                        met2,
                        frozen0,
                        orig,
                    ) == 0 by {
                        lemma_condemned_push(met, u, frozen0, orig);
                        if knows_family(f, orig) {
                            let i = choose|i: int| 0 <= i < f.len() && (#[trigger] f[i]).orig == orig;
                            assert(g[i].orig == orig);
                        }
                        if orig == orig_u {
                            let i = choose|i: int|
                                0 <= i < f.len() && (#[trigger] f[i]).orig == orig_u;
                            assert(g[i].orig == orig_u);
                        }
                    }
                } else {
                    assert(g == f.push(FamilyCount { orig: orig_u, declared: total, seen: 1 }));
                    assert forall|a: int, b: int| 0 <= a < b < g.len() implies (#[trigger] g[a]).orig
                        != (#[trigger] g[b]).orig by {
                        assert(g[a] == f[a]);
                        if b < f.len() {
                            assert(g[b] == f[b]);
                        }
                    }
                    assert forall|i: int| 0 <= i < g.len() implies 1 <= (#[trigger] g[i]).seen
                        == condemned_fragments_of(met2, frozen0, g[i].orig) && shows_size(
                        met2,
                        frozen0,
                        g[i].orig,
                        g[i].declared,
                    ) by {
                        lemma_condemned_push(met, u, frozen0, g[i].orig);
                        if i < f.len() {
                            assert(g[i] == f[i]);
                            lemma_shows_size_push(met, u, frozen0, f[i].orig, f[i].declared);
                        } else {
                            assert(condemned_fragments_of(met, frozen0, orig_u) == 0);
                            assert(shows_size(met2, frozen0, orig_u, total));
                        }
                    }
                    assert forall|orig: Seq<char>| !knows_family(g, orig) implies #[trigger] condemned_fragments_of(
                        met2,
                        frozen0,
                        orig,
                    ) == 0 by {
                        lemma_condemned_push(met, u, frozen0, orig);
                        if knows_family(f, orig) {
                            let i = choose|i: int| 0 <= i < f.len() && (#[trigger] f[i]).orig == orig;
                            assert(g[i] == f[i]);
                        }
                        if orig == orig_u {
                            assert(g[f.len() as int].orig == orig_u);
                        }
                    }
                }
            } else {
                assert(g == f);
                assert(!frozen0.contains(u.tag));
                assert forall|i: int| 0 <= i < g.len() implies 1 <= (#[trigger] g[i]).seen
                    == condemned_fragments_of(met2, frozen0, g[i].orig) && shows_size(
                    met2,
                    frozen0,
                    g[i].orig,
                    g[i].declared,
                ) by {
                    lemma_condemned_push(met, u, frozen0, f[i].orig);
                }
                assert forall|orig: Seq<char>| !knows_family(g, orig) implies #[trigger] condemned_fragments_of(
                    met2,
                    frozen0,
                    orig,
                ) == 0 by {
                    lemma_condemned_push(met, u, frozen0, orig);
                }
            }
        },
    }
}

proof fn lemma_sweep_sound(
    frozen0: Set<ProcTagView>,
    met: Seq<TaggedPrimProcView>,
    l: Ledger,
    units: Seq<TaggedPrimProcView>,
)
    requires
        ledger_sound(frozen0, met, l),
    ensures
        ledger_sound(frozen0, met + units, sweep_simple(l, units).ledger),
    decreases units.len(),
{
    if units.len() == 0 {
        assert(met + units =~= met);
    } else {
        lemma_sweep_sound(frozen0, met, l, units.drop_last());
        lemma_sweep_unit_sound(
            frozen0,
            met + units.drop_last(),
            sweep_simple(l, units.drop_last()).ledger,
            units.last(),
        );
        assert((met + units.drop_last()).push(units.last()) =~= met + units);
    }
}

/// The reports of the complete families name each complete family once and
/// no other family.
proof fn lemma_family_reports(families: Seq<FamilyCount>)
    requires
        distinct_families(families),
    ensures
        family_reports(families).no_duplicates(),
        forall|t: ProcTagView|
            family_reports(families).contains(t) <==> (t matches ProcTagView::Key(orig)
                && family_complete(families, orig)),
    decreases families.len(),
{
    let r = family_reports(families);
    if families.len() == 0 {
        assert forall|t: ProcTagView| r.contains(t) <==> (t matches ProcTagView::Key(orig)
            && family_complete(families, orig)) by {}
    } else {
        let init = families.drop_last();
        let last = families.last();
        assert forall|i: int, j: int| 0 <= i < j < init.len() implies (#[trigger] init[i]).orig != (
        #[trigger] init[j]).orig by {
            assert(init[i] == families[i]);
            assert(init[j] == families[j]);
        }
        lemma_family_reports(init);
        let before = family_reports(init);
        assert forall|orig: Seq<char>| family_complete(families, orig) <==> (family_complete(
            init,
            orig,
        ) || (last.orig == orig && last.declared == last.seen)) by {
            if family_complete(init, orig) {
                let i = choose|i: int|
                    0 <= i < init.len() && (#[trigger] init[i]).orig == orig && init[i].declared
                        == init[i].seen;
                assert(families[i] == init[i]);
            }
            if last.orig == orig && last.declared == last.seen {
                assert(families[families.len() - 1] == last);
            }
            if family_complete(families, orig) {
                let i = choose|i: int|
                    0 <= i < families.len() && (#[trigger] families[i]).orig == orig
                        && families[i].declared == families[i].seen;
                if i < init.len() {
                    assert(init[i] == families[i]);
                }
            }
        }
        if last.declared == last.seen {
            let t = ProcTagView::Key(last.orig);
            if before.contains(t) {
                let i = choose|i: int|
                    0 <= i < init.len() && (#[trigger] init[i]).orig == last.orig
                        && init[i].declared == init[i].seen;
                assert(init[i] == families[i]);
                assert(families[families.len() - 1] == last);
                assert(false);
            }
            assert forall|i: int, j: int| 0 <= i < j < r.len() implies r[i] != r[j] by {
                if j == before.len() {
                    assert(before.contains(r[i]));
                }
            }
            assert forall|t2: ProcTagView| r.contains(t2) <==> (t2 matches ProcTagView::Key(orig)
                && family_complete(families, orig)) by {
                if r.contains(t2) {
                    let i = choose|i: int| 0 <= i < r.len() && r[i] == t2;
                    if i < before.len() {
                        assert(before.contains(t2));
                    }
                }
                if before.contains(t2) {
                    let i = choose|i: int| 0 <= i < before.len() && before[i] == t2;
                    assert(r[i] == t2);
                }
                if t2 == t {
                    assert(r[before.len() as int] == t2);
                }
            }
        } else {
            assert forall|t2: ProcTagView| r.contains(t2) <==> (t2 matches ProcTagView::Key(orig)
                && family_complete(families, orig)) by {}
        }
    }
}

/// Split re-fusion. A disappear step reports the original key of a split
/// process, as such, exactly where as many fragments of the process were at
/// hand and condemned, each by its own tag, as the split had made, by the
/// word of one of them. It then reports the key once; no fragment of the
/// process stays, live or dead, and none of its fragments stays condemned.
/// Of a process that it does not report so, every fragment stays; and it is
/// not reported so where none of its fragments is condemned.
pub proof fn lemma_disappear_whole_families(s: ParticipantStateView, orig: Seq<char>)
    ensures
        family_reports(disappear_families(s)).no_duplicates(),
        family_reports(disappear_families(s)).contains(ProcTagView::Key(orig)) <==> family_complete(
            disappear_families(s),
            orig,
        ),
        family_complete(disappear_families(s), orig) <==> exists|n: int|
            #![trigger shows_size(s.live + s.dead, s.frozen, orig, n)]
            n == condemned_fragments_of(s.live + s.dead, s.frozen, orig) && shows_size(
                s.live + s.dead,
                s.frozen,
                orig,
                n,
            ) && knows_size(disappear_families(s), orig, n),
        family_complete(disappear_families(s), orig) ==> {
            &&& fragments_of(disappear_of(s).state.live, orig) == 0
            &&& fragments_of(disappear_of(s).state.dead, orig) == 0
            &&& forall|t: ProcTagView|
                is_fragment_of(t, orig) ==> !(#[trigger] disappear_of(s).state.frozen.contains(t))
        },
        !family_complete(disappear_families(s), orig) ==> {
            &&& fragments_of(disappear_of(s).state.live, orig) == fragments_of(s.live, orig)
            &&& fragments_of(disappear_of(s).state.dead, orig) == fragments_of(s.dead, orig)
            &&& forall|t: ProcTagView|
                is_fragment_of(t, orig) ==> (#[trigger] disappear_of(s).state.frozen.contains(t)
                    == s.frozen.contains(t))
        },
        condemned_fragments_of(s.live + s.dead, s.frozen, orig) == 0 ==> !family_complete(
            disappear_families(s),
            orig,
        ),
{
    let start = Ledger { reported: Seq::empty(), frozen: s.frozen, families: Seq::empty() };
    let live = sweep_simple(start, s.live);
    let dead = sweep_simple(live.ledger, s.dead);
    let fam = disappear_families(s);
    let all = s.live + s.dead;
    let none = Seq::<TaggedPrimProcView>::empty();
    assert(ledger_sound(s.frozen, none, start));
    lemma_sweep_sound(s.frozen, none, start, s.live);
    assert(none + s.live =~= s.live);
    lemma_sweep_sound(s.frozen, s.live, live.ledger, s.dead);
    lemma_family_reports(fam);
    lemma_sweep_keeps_fragments(start, s.live, orig);
    lemma_sweep_keeps_fragments(live.ledger, s.dead, orig);
    lemma_drop_families_fragments(fam, live.kept, orig);
    lemma_drop_families_fragments(fam, dead.kept, orig);
    if family_complete(fam, orig) {
        let i = choose|i: int|
            0 <= i < fam.len() && (#[trigger] fam[i]).orig == orig && fam[i].declared
                == fam[i].seen;
        assert(knows_size(fam, orig, fam[i].declared));
        assert(shows_size(all, s.frozen, orig, fam[i].declared));
    }
    if exists|n: int|
        #![trigger shows_size(all, s.frozen, orig, n)]
        n == condemned_fragments_of(all, s.frozen, orig) && shows_size(all, s.frozen, orig, n)
            && knows_size(fam, orig, n) {
        let n = choose|n: int|
            #![trigger shows_size(all, s.frozen, orig, n)]
            n == condemned_fragments_of(all, s.frozen, orig) && shows_size(all, s.frozen, orig, n)
                && knows_size(fam, orig, n);
        let i = choose|i: int|
            0 <= i < fam.len() && (#[trigger] fam[i]).orig == orig && fam[i].declared == n;
        assert(fam[i].seen == n);
    }
    if condemned_fragments_of(all, s.frozen, orig) == 0 && knows_family(fam, orig) {
        let i = choose|i: int| 0 <= i < fam.len() && (#[trigger] fam[i]).orig == orig;
        assert(fam[i].seen >= 1);
    }
    assert forall|t: ProcTagView| is_fragment_of(t, orig) implies (if family_complete(fam, orig) {
        !(#[trigger] disappear_of(s).state.frozen.contains(t))
    } else {
        disappear_of(s).state.frozen.contains(t) == s.frozen.contains(t)
    }) by {
        assert(in_complete_family(fam, t) == family_complete(fam, orig));
    }
}

/// Whether every fragment of the process whose key is `orig` among `units`
/// says that the split made `n` fragments.
pub open spec fn uniform_size(units: Seq<TaggedPrimProcView>, orig: Seq<char>, n: int) -> bool {
    forall|j: int|
        0 <= j < units.len() ==> ((#[trigger] units[j]).tag matches ProcTagView::Split(_, m, o) ==> (o
            == orig ==> m == n))
}

/// Split re-fusion, for a family whose fragments agree that the split made
/// `n` of them: the family leaves, as a whole and under one report, exactly
/// where `n` of its fragments are at hand, live or dead, and condemned
/// themselves; with fewer, all of its fragments stay and nothing is
/// reported for it.
pub proof fn lemma_disappear_family_of_size(s: ParticipantStateView, orig: Seq<char>, n: int)
    requires
        uniform_size(s.live + s.dead, orig, n),
    ensures
        family_complete(disappear_families(s), orig) <==> n >= 1 && condemned_fragments_of(
            s.live + s.dead,
            s.frozen,
            orig,
        ) == n,
{
    let start = Ledger { reported: Seq::empty(), frozen: s.frozen, families: Seq::empty() };
    let live = sweep_simple(start, s.live);
    let fam = disappear_families(s);
    let all = s.live + s.dead;
    let none = Seq::<TaggedPrimProcView>::empty();
    assert(ledger_sound(s.frozen, none, start));
    lemma_sweep_sound(s.frozen, none, start, s.live);
    assert(none + s.live =~= s.live);
    lemma_sweep_sound(s.frozen, s.live, live.ledger, s.dead);
    if knows_family(fam, orig) {
        let i = choose|i: int| 0 <= i < fam.len() && (#[trigger] fam[i]).orig == orig;
        let j = choose|j: int|
            0 <= j < all.len() && s.frozen.contains((#[trigger] all[j]).tag) && (
            all[j].tag matches ProcTagView::Split(_, m, o) && o == orig && m == fam[i].declared);
        assert(fam[i].declared == n);
        assert forall|k: int| 0 <= k < fam.len() && (#[trigger] fam[k]).orig == orig implies k == i by {}
    }
    if family_complete(fam, orig) {
        assert(knows_family(fam, orig));
    }
}

/// Whether `families` counts the family of `orig` under the size `n`.
pub open spec fn knows_size(families: Seq<FamilyCount>, orig: Seq<char>, n: int) -> bool {
    exists|i: int|
        0 <= i < families.len() && (#[trigger] families[i]).orig == orig && families[i].declared
            == n
}

} // verus!
