//! Free names of a term and the renaming of a restricted channel.

use super::syntax::{Process, ProcessView};
use crate::rollpi::syntax::{insert_name, lemma_names_push, names_contain, views};
use vstd::prelude::*;
use vstd::string::StringExecFns;

verus! {

impl ProcessView {
    /// The process variables of the term that no enclosing receive binds
    /// and that are not in `bound`.
    pub open spec fn free_vars(self, bound: Set<Seq<char>>) -> Set<Seq<char>>
        decreases self,
    {
        match self {
            ProcessView::End => Set::empty(),
            ProcessView::PVar(v) => if bound.contains(v) {
                Set::empty()
            } else {
                set![v]
            },
            ProcessView::New(_, p) => p.free_vars(bound),
            ProcessView::Par(a, b) => a.free_vars(bound).union(b.free_vars(bound)),
            ProcessView::Send(_, p) => p.free_vars(bound),
            ProcessView::Receive(_, v, p) => p.free_vars(bound.insert(v)),
        }
    }

    /// The channel names of the term that no enclosing restriction binds and
    /// that are not in `bound`.
    pub open spec fn free_chans(self, bound: Set<Seq<char>>) -> Set<Seq<char>>
        decreases self,
    {
        match self {
            ProcessView::End => Set::empty(),
            ProcessView::PVar(_) => Set::empty(),
            ProcessView::New(c, p) => p.free_chans(bound.insert(c)),
            ProcessView::Par(a, b) => a.free_chans(bound).union(b.free_chans(bound)),
            ProcessView::Send(c, p) => if bound.contains(c) {
                p.free_chans(bound)
            } else {
                p.free_chans(bound).insert(c)
            },
            ProcessView::Receive(c, _, p) => if bound.contains(c) {
                p.free_chans(bound)
            } else {
                p.free_chans(bound).insert(c)
            },
        }
    }

    /// Whether the term holds a receive.
    pub open spec fn has_receive(self) -> bool
        decreases self,
    {
        match self {
            ProcessView::New(_, p) => p.has_receive(),
            ProcessView::Par(a, b) => a.has_receive() || b.has_receive(),
            ProcessView::Send(_, p) => p.has_receive(),
            ProcessView::Receive(_, _, _) => true,
            _ => false,
        }
    }

    /// The term with every restriction of `c_from` turned into one of
    /// `c_to`, and with `c_to` in place of `c_from` as the channel of each
    /// send that stands under exactly one such restriction; `captures` is the
    /// number of such restrictions around the term.
    pub open spec fn renamed(self, captures: int, c_from: Seq<char>, c_to: Seq<char>) -> ProcessView
        decreases self,
    {
        match self {
            ProcessView::New(c, p) => if c == c_from {
                ProcessView::New(c_to, Box::new(p.renamed(captures + 1, c_from, c_to)))
            } else {
                ProcessView::New(c, Box::new(p.renamed(captures, c_from, c_to)))
            },
            ProcessView::Par(a, b) => ProcessView::Par(
                Box::new(a.renamed(captures, c_from, c_to)),
                Box::new(b.renamed(captures, c_from, c_to)),
            ),
            ProcessView::Send(c, p) => if captures == 1 && c == c_from {
                ProcessView::Send(c_to, Box::new(p.renamed(captures, c_from, c_to)))
            } else {
                ProcessView::Send(c, Box::new(p.renamed(captures, c_from, c_to)))
            },
            other => other,
        }
    }
}

fn collect_free_vars(p: &Process, ctx: &mut Vec<String>, acc: &mut Vec<String>)
    requires
        views(old(acc)@).no_duplicates(),
    ensures
        final(ctx)@ == old(ctx)@,
        views(final(acc)@).no_duplicates(),
        views(final(acc)@).to_set() == views(old(acc)@).to_set().union(
            p@.free_vars(views(old(ctx)@).to_set()),
        ),
    decreases p,
{
    let ghost acc0 = views(acc@).to_set();
    let ghost bound = views(ctx@).to_set();
    match p {
        Process::End => {
            assert(acc0.union(p@.free_vars(bound)) =~= acc0);
        },
        Process::PVar(p_name) => {
            if !names_contain(ctx, p_name) {
                insert_name(acc, p_name);
                assert(acc0.insert(p_name@) =~= acc0.union(p@.free_vars(bound)));
            } else {
                assert(acc0.union(p@.free_vars(bound)) =~= acc0);
            }
        },
        Process::New(_, proc) => {
            collect_free_vars(proc, ctx, acc);
        },
        Process::Par(a, b) => {
            collect_free_vars(a, ctx, acc);
            collect_free_vars(b, ctx, acc);
            assert(acc0.union(a@.free_vars(bound)).union(b@.free_vars(bound)) =~= acc0.union(
                p@.free_vars(bound),
            ));
        },
        Process::Send(_, proc) => {
            collect_free_vars(proc, ctx, acc);
        },
        Process::Receive(_, p_name, proc) => {
            proof {
                lemma_names_push(ctx@, *p_name);
            }
            let c = p_name.clone();
            assert(views(ctx@.push(c)) =~= views(ctx@.push(*p_name)));
            ctx.push(c);
            collect_free_vars(proc, ctx, acc);
            ctx.pop();
            assert(ctx@ =~= old(ctx)@);
        },
    }
}

/// The free process variables of `p`, each once.
pub fn var_free_names(p: &Process) -> (r: Vec<String>)
    ensures
        views(r@).no_duplicates(),
        views(r@).to_set() == p@.free_vars(Set::empty()),
{
    let mut ctx: Vec<String> = Vec::new();
    let mut acc: Vec<String> = Vec::new();
    assert(views(ctx@).to_set() =~= Set::<Seq<char>>::empty());
    assert(views(acc@).to_set() =~= Set::<Seq<char>>::empty());
    collect_free_vars(p, &mut ctx, &mut acc);
    assert(Set::<Seq<char>>::empty().union(p@.free_vars(Set::empty())) =~= p@.free_vars(
        Set::empty(),
    ));
    acc
}

fn collect_free_chans(p: &Process, ctx: &mut Vec<String>, acc: &mut Vec<String>)
    requires
        views(old(acc)@).no_duplicates(),
    ensures
        final(ctx)@ == old(ctx)@,
        views(final(acc)@).no_duplicates(),
        views(final(acc)@).to_set() == views(old(acc)@).to_set().union(
            p@.free_chans(views(old(ctx)@).to_set()),
        ),
    decreases p,
{
    let ghost acc0 = views(acc@).to_set();
    let ghost bound = views(ctx@).to_set();
    match p {
        Process::End => {
            assert(acc0.union(p@.free_chans(bound)) =~= acc0);
        },
        Process::PVar(_) => {
            assert(acc0.union(p@.free_chans(bound)) =~= acc0);
        },
        Process::New(c_name, proc) => {
            proof {
                lemma_names_push(ctx@, *c_name);
            }
            let c = c_name.clone();
            assert(views(ctx@.push(c)) =~= views(ctx@.push(*c_name)));
            ctx.push(c);
            collect_free_chans(proc, ctx, acc);
            ctx.pop();
            assert(ctx@ =~= old(ctx)@);
        },
        Process::Par(a, b) => {
            collect_free_chans(a, ctx, acc);
            collect_free_chans(b, ctx, acc);
            assert(acc0.union(a@.free_chans(bound)).union(b@.free_chans(bound)) =~= acc0.union(
                p@.free_chans(bound),
            ));
        },
        Process::Send(c_name, proc) => {
            let has_name = names_contain(ctx, c_name);
            collect_free_chans(proc, ctx, acc);
            if !has_name {
                insert_name(acc, c_name);
                assert(acc0.union(proc@.free_chans(bound)).insert(c_name@) =~= acc0.union(
                    p@.free_chans(bound),
                ));
            }
        },
        Process::Receive(c_name, _, proc) => {
            let has_name = names_contain(ctx, c_name);
            collect_free_chans(proc, ctx, acc);
            if !has_name {
                insert_name(acc, c_name);
                assert(acc0.union(proc@.free_chans(bound)).insert(c_name@) =~= acc0.union(
                    p@.free_chans(bound),
                ));
            }
        },
    }
}

/// The free channel names of `p`, each once.
pub fn chn_free_names(p: &Process) -> (r: Vec<String>)
    ensures
        views(r@).no_duplicates(),
        views(r@).to_set() == p@.free_chans(Set::empty()),
{
    let mut ctx: Vec<String> = Vec::new();
    let mut acc: Vec<String> = Vec::new();
    assert(views(ctx@).to_set() =~= Set::<Seq<char>>::empty());
    assert(views(acc@).to_set() =~= Set::<Seq<char>>::empty());
    collect_free_chans(p, &mut ctx, &mut acc);
    assert(Set::<Seq<char>>::empty().union(p@.free_chans(Set::empty())) =~= p@.free_chans(
        Set::empty(),
    ));
    acc
}

/// The message with which a renaming to `c_to` is refused.
pub open spec fn taken_text(c_to: Seq<char>) -> Seq<char> {
    "Name "@ + c_to + " is already a free name inside the given process"@
}

/// Renames the restricted channel `c_from` to `c_to` in `p`, a term
/// without receives. The renaming is refused, with a message, where `c_to`
/// is a free channel name of `p`.
pub fn chn_alpha_conversion(p: Process, c_from: String, c_to: String) -> (r: Result<Process, String>)
    requires
        !p@.has_receive(),
    ensures
        match r {
            Ok(q) => !p@.free_chans(Set::empty()).contains(c_to@) && q@ == p@.renamed(
                0,
                c_from@,
                c_to@,
            ),
            Err(msg) => p@.free_chans(Set::empty()).contains(c_to@) && msg@ == taken_text(c_to@),
        },
{
    let free = chn_free_names(&p);
    if names_contain(&free, &c_to) {
        let mut msg = String::from_str("Name ");
        msg.append(c_to.as_str());
        msg.append(" is already a free name inside the given process");
        return Err(msg);
    }
    Ok(rec_chn_alpha_conversion(p, 0, &c_from, &c_to))
}

/// The renaming, for a term under `captures` restrictions of `c_from`; the
/// count stops at two, beyond which it makes no difference.
fn rec_chn_alpha_conversion(p: Process, captures: u8, c_from: &String, c_to: &String) -> (r: Process)
    requires
        !p@.has_receive(),
        captures <= 2,
    ensures
        forall|n: int|
            (if n >= 2 {
                2
            } else {
                n
            }) == captures ==> r@ == #[trigger] p@.renamed(n, c_from@, c_to@),
    decreases p,
{
    match p {
        Process::End => Process::End,
        Process::PVar(v) => Process::PVar(v),
        Process::New(c_name, proc) => {
            if c_name == *c_from {
                let more: u8 = if captures >= 2 {
                    2
                } else {
                    captures + 1
                };
                let inner = rec_chn_alpha_conversion(*proc, more, c_from, c_to);
                let r = Process::New(c_to.clone(), Box::new(inner));
                assert forall|n: int|
                    (if n >= 2 {
                        2
                    } else {
                        n
                    }) == captures implies r@ == #[trigger] p@.renamed(n, c_from@, c_to@) by {
                    assert(inner@ == proc@.renamed(n + 1, c_from@, c_to@));
                }
                r
            } else {
                let inner = rec_chn_alpha_conversion(*proc, captures, c_from, c_to);
                let r = Process::New(c_name, Box::new(inner));
                assert forall|n: int|
                    (if n >= 2 {
                        2
                    } else {
                        n
                    }) == captures implies r@ == #[trigger] p@.renamed(n, c_from@, c_to@) by {
                    assert(inner@ == proc@.renamed(n, c_from@, c_to@));
                }
                r
            }
        },
        Process::Par(a, b) => {
            let pa = rec_chn_alpha_conversion(*a, captures, c_from, c_to);
            let pb = rec_chn_alpha_conversion(*b, captures, c_from, c_to);
            let r = Process::Par(Box::new(pa), Box::new(pb));
            assert forall|n: int|
                (if n >= 2 {
                    2
                } else {
                    n
                }) == captures implies r@ == #[trigger] p@.renamed(n, c_from@, c_to@) by {
                assert(pa@ == a@.renamed(n, c_from@, c_to@));
                assert(pb@ == b@.renamed(n, c_from@, c_to@));
            }
            r
        },
        Process::Send(c_name, proc) => {
            let hit = captures == 1 && c_name == *c_from;
            let inner = rec_chn_alpha_conversion(*proc, captures, c_from, c_to);
            let r = if hit {
                Process::Send(c_to.clone(), Box::new(inner))
            } else {
                Process::Send(c_name, Box::new(inner))
            };
            assert forall|n: int|
                (if n >= 2 {
                    2
                } else {
                    n
                }) == captures implies r@ == #[trigger] p@.renamed(n, c_from@, c_to@) by {
                assert(inner@ == proc@.renamed(n, c_from@, c_to@));
            }
            r
        },
        Process::Receive(c, v, proc) => Process::Receive(c, v, proc),
    }
}

} // verus!
