//! Substitution: what a receive does to its continuation once a message has
//! arrived.

use super::syntax::{ProcVar, Process, ProcessView, TagKey, TagVar};
use vstd::prelude::*;

verus! {

impl ProcessView {
    /// The term with `in_process` in place of the free occurrences of the
    /// process variable `p_var` (where `ok_proc` holds) and with a rollback to
    /// the key `new_tag` in place of the free rollbacks to the tag variable
    /// `t_var` (where `ok_tag` holds). An occurrence under a receive that
    /// binds the same variable again is not free.
    pub open spec fn subst(
        self,
        p_var: Seq<char>,
        in_process: ProcessView,
        ok_proc: bool,
        t_var: Seq<char>,
        new_tag: Seq<char>,
        ok_tag: bool,
    ) -> ProcessView
        decreases self,
    {
        match self {
            ProcessView::End => ProcessView::End,
            ProcessView::Par(a, b) => ProcessView::Par(
                Box::new(a.subst(p_var, in_process, ok_proc, t_var, new_tag, ok_tag)),
                Box::new(b.subst(p_var, in_process, ok_proc, t_var, new_tag, ok_tag)),
            ),
            ProcessView::Send(ch, p) => ProcessView::Send(
                ch,
                Box::new(p.subst(p_var, in_process, ok_proc, t_var, new_tag, ok_tag)),
            ),
            ProcessView::Recv(ch, pv, tv, p) => ProcessView::Recv(
                ch,
                pv,
                tv,
                Box::new(
                    p.subst(
                        p_var,
                        in_process,
                        ok_proc && pv != p_var,
                        t_var,
                        new_tag,
                        ok_tag && tv != t_var,
                    ),
                ),
            ),
            ProcessView::PVar(v) => if ok_proc && v == p_var {
                in_process
            } else {
                ProcessView::PVar(v)
            },
            ProcessView::RollK(k) => ProcessView::RollK(k),
            ProcessView::RollV(v) => if ok_tag && v == t_var {
                ProcessView::RollK(new_tag)
            } else {
                ProcessView::RollV(v)
            },
        }
    }

    /// The continuation of a receive that bound `p_var` and `t_var`, once
    /// the process `in_process` has arrived and the step has got the key
    /// `new_tag`.
    pub open spec fn substitute(
        self,
        p_var: Seq<char>,
        in_process: ProcessView,
        t_var: Seq<char>,
        new_tag: Seq<char>,
    ) -> ProcessView {
        self.subst(p_var, in_process, true, t_var, new_tag, true)
    }

    /// Whether every rollback to a tag variable names one that an enclosing
    /// receive binds or that is in `env`. Rollbacks to keys are accepted:
    /// this is what holds of a term while it runs.
    pub open spec fn tvars_bound(self, env: Set<Seq<char>>) -> bool
        decreases self,
    {
        match self {
            ProcessView::Par(a, b) => a.tvars_bound(env) && b.tvars_bound(env),
            ProcessView::Send(_, p) => p.tvars_bound(env),
            ProcessView::Recv(_, _, tv, p) => p.tvars_bound(env.insert(tv)),
            ProcessView::RollV(v) => env.contains(v),
            _ => true,
        }
    }

    /// Whether the term has no free variable of either kind.
    pub open spec fn closed(self) -> bool {
        self.pvars_closed(Set::empty()) && self.tvars_bound(Set::empty())
    }
}

/// Where neither variable is free any more, substitution changes nothing.
pub proof fn lemma_subst_shadowed(
    p: ProcessView,
    p_var: Seq<char>,
    in_process: ProcessView,
    t_var: Seq<char>,
    new_tag: Seq<char>,
)
    ensures
        p.subst(p_var, in_process, false, t_var, new_tag, false) == p,
    decreases p,
{
    match p {
        ProcessView::Par(a, b) => {
            lemma_subst_shadowed(*a, p_var, in_process, t_var, new_tag);
            lemma_subst_shadowed(*b, p_var, in_process, t_var, new_tag);
        },
        ProcessView::Send(_, q) => {
            lemma_subst_shadowed(*q, p_var, in_process, t_var, new_tag);
        },
        ProcessView::Recv(_, _, _, q) => {
            lemma_subst_shadowed(*q, p_var, in_process, t_var, new_tag);
        },
        _ => {},
    }
}

/// A term whose process variables are bound stays so in a larger
/// environment.
pub proof fn lemma_pvars_closed_grows(p: ProcessView, small: Set<Seq<char>>, large: Set<Seq<char>>)
    requires
        p.pvars_closed(small),
        small.subset_of(large),
    ensures
        p.pvars_closed(large),
    decreases p,
{
    match p {
        ProcessView::Par(a, b) => {
            lemma_pvars_closed_grows(*a, small, large);
            lemma_pvars_closed_grows(*b, small, large);
        },
        ProcessView::Send(_, q) => {
            lemma_pvars_closed_grows(*q, small, large);
        },
        ProcessView::Recv(_, pv, _, q) => {
            lemma_pvars_closed_grows(*q, small.insert(pv), large.insert(pv));
        },
        _ => {},
    }
}

/// A term whose tag variables are bound stays so in a larger environment.
pub proof fn lemma_tvars_bound_grows(p: ProcessView, small: Set<Seq<char>>, large: Set<Seq<char>>)
    requires
        p.tvars_bound(small),
        small.subset_of(large),
    ensures
        p.tvars_bound(large),
    decreases p,
{
    match p {
        ProcessView::Par(a, b) => {
            lemma_tvars_bound_grows(*a, small, large);
            lemma_tvars_bound_grows(*b, small, large);
        },
        ProcessView::Send(_, q) => {
            lemma_tvars_bound_grows(*q, small, large);
        },
        ProcessView::Recv(_, _, tv, q) => {
            lemma_tvars_bound_grows(*q, small.insert(tv), large.insert(tv));
        },
        _ => {},
    }
}

/// A term that is accepted before a run has its tag variables bound.
pub proof fn lemma_tvars_closed_bound(p: ProcessView, env: Set<Seq<char>>)
    requires
        p.tvars_closed(env),
    ensures
        p.tvars_bound(env),
    decreases p,
{
    match p {
        ProcessView::Par(a, b) => {
            lemma_tvars_closed_bound(*a, env);
            lemma_tvars_closed_bound(*b, env);
        },
        ProcessView::Send(_, q) => {
            lemma_tvars_closed_bound(*q, env);
        },
        ProcessView::Recv(_, _, tv, q) => {
            lemma_tvars_closed_bound(*q, env.insert(tv));
        },
        _ => {},
    }
}

/// A term that is accepted as an initial configuration is closed.
pub proof fn lemma_well_formed_closed(p: ProcessView)
    requires
        p.well_formed(),
    ensures
        p.closed(),
{
    lemma_tvars_closed_bound(p, Set::empty());
}

/// Substituting a closed process for a process variable removes that
/// variable from what the term needs bound.
pub proof fn lemma_subst_pvars(
    p: ProcessView,
    env: Set<Seq<char>>,
    p_var: Seq<char>,
    in_process: ProcessView,
    ok_proc: bool,
    t_var: Seq<char>,
    new_tag: Seq<char>,
    ok_tag: bool,
)
    requires
        p.pvars_closed(
            if ok_proc {
                env.insert(p_var)
            } else {
                env
            },
        ),
        in_process.pvars_closed(Set::empty()),
    ensures
        p.subst(p_var, in_process, ok_proc, t_var, new_tag, ok_tag).pvars_closed(env),
    decreases p,
{
    match p {
        ProcessView::Par(a, b) => {
            lemma_subst_pvars(*a, env, p_var, in_process, ok_proc, t_var, new_tag, ok_tag);
            lemma_subst_pvars(*b, env, p_var, in_process, ok_proc, t_var, new_tag, ok_tag);
        },
        ProcessView::Send(_, q) => {
            lemma_subst_pvars(*q, env, p_var, in_process, ok_proc, t_var, new_tag, ok_tag);
        },
        ProcessView::Recv(_, pv, tv, q) => {
            let ok2 = ok_proc && pv != p_var;
            if ok2 {
                assert(env.insert(p_var).insert(pv) =~= env.insert(pv).insert(p_var));
            } else if ok_proc {
                assert(env.insert(p_var).insert(pv) =~= env.insert(pv));
            }
            lemma_subst_pvars(
                *q,
                env.insert(pv),
                p_var,
                in_process,
                ok2,
                t_var,
                new_tag,
                ok_tag && tv != t_var,
            );
        },
        ProcessView::PVar(v) => {
            if ok_proc && v == p_var {
                lemma_pvars_closed_grows(in_process, Set::empty(), env);
            }
        },
        _ => {},
    }
}

/// Substituting a key for a tag variable removes that variable from what
/// the term needs bound.
pub proof fn lemma_subst_tvars(
    p: ProcessView,
    env: Set<Seq<char>>,
    p_var: Seq<char>,
    in_process: ProcessView,
    ok_proc: bool,
    t_var: Seq<char>,
    new_tag: Seq<char>,
    ok_tag: bool,
)
    requires
        p.tvars_bound(
            if ok_tag {
                env.insert(t_var)
            } else {
                env
            },
        ),
        in_process.tvars_bound(Set::empty()),
    ensures
        p.subst(p_var, in_process, ok_proc, t_var, new_tag, ok_tag).tvars_bound(env),
    decreases p,
{
    match p {
        ProcessView::Par(a, b) => {
            lemma_subst_tvars(*a, env, p_var, in_process, ok_proc, t_var, new_tag, ok_tag);
            lemma_subst_tvars(*b, env, p_var, in_process, ok_proc, t_var, new_tag, ok_tag);
        },
        ProcessView::Send(_, q) => {
            lemma_subst_tvars(*q, env, p_var, in_process, ok_proc, t_var, new_tag, ok_tag);
        },
        ProcessView::Recv(_, pv, tv, q) => {
            let ok2 = ok_tag && tv != t_var;
            if ok2 {
                assert(env.insert(t_var).insert(tv) =~= env.insert(tv).insert(t_var));
            } else if ok_tag {
                assert(env.insert(t_var).insert(tv) =~= env.insert(tv));
            }
            lemma_subst_tvars(
                *q,
                env.insert(tv),
                p_var,
                in_process,
                ok_proc && pv != p_var,
                t_var,
                new_tag,
                ok2,
            );
        },
        ProcessView::PVar(v) => {
            if ok_proc && v == p_var {
                lemma_tvars_bound_grows(in_process, Set::empty(), env);
            }
        },
        _ => {},
    }
}

/// The closed-term invariant: the continuation of a closed receive, with a
/// closed process put in, is closed.
pub proof fn lemma_substitute_closed(
    ch: Seq<char>,
    p_var: Seq<char>,
    t_var: Seq<char>,
    cont: ProcessView,
    in_process: ProcessView,
    new_tag: Seq<char>,
)
    requires
        ProcessView::Recv(ch, p_var, t_var, Box::new(cont)).closed(),
        in_process.closed(),
    ensures
        cont.substitute(p_var, in_process, t_var, new_tag).closed(),
{
    let empty = Set::<Seq<char>>::empty();
    lemma_subst_pvars(cont, empty, p_var, in_process, true, t_var, new_tag, true);
    lemma_subst_tvars(cont, empty, p_var, in_process, true, t_var, new_tag, true);
}

/// The top-level parallel components of a closed term are closed, and each
/// can stand at top level.
pub proof fn lemma_closed_flatten(p: ProcessView)
    requires
        p.closed(),
    ensures
        forall|i: int|
            0 <= i < p.flatten().len() ==> (#[trigger] p.flatten()[i]).closed()
                && p.flatten()[i].is_prime(),
    decreases p,
{
    match p {
        ProcessView::Par(a, b) => {
            lemma_closed_flatten(*a);
            lemma_closed_flatten(*b);
            let fa = a.flatten();
            let fb = b.flatten();
            assert forall|i: int| 0 <= i < p.flatten().len() implies (#[trigger] p.flatten()[i]).closed()
                && p.flatten()[i].is_prime() by {
                if i < fa.len() {
                    assert(p.flatten()[i] == fa[i]);
                } else {
                    assert(p.flatten()[i] == fb[i - fa.len()]);
                }
            }
        },
        _ => {},
    }
}

impl Process {
    /// The continuation of a receive that bound `p_var` and `t_var`, once
    /// the process `in_process` has arrived and the step has got the key
    /// `new_tag`.
    pub fn substitution_on_trigger(
        self,
        p_var: ProcVar,
        in_process: &Process,
        t_var: TagVar,
        new_tag: &TagKey,
    ) -> (r: Process)
        ensures
            r@ == self@.substitute(p_var@, in_process@, t_var@, new_tag@),
    {
        self.rec_subst(&p_var, in_process, true, &t_var, new_tag, true)
    }

    fn rec_subst(
        self,
        p_var: &ProcVar,
        in_process: &Process,
        ok_proc: bool,
        t_var: &TagVar,
        new_tag: &TagKey,
        ok_tag: bool,
    ) -> (r: Process)
        ensures
            r@ == self@.subst(p_var@, in_process@, ok_proc, t_var@, new_tag@, ok_tag),
        decreases self,
    {
        if !ok_proc && !ok_tag {
            proof {
                lemma_subst_shadowed(self@, p_var@, in_process@, t_var@, new_tag@);
            }
            return self;
        }
        match self {
            Process::End => Process::End,
            Process::Par(a, b) => {
                let conv_a = (*a).rec_subst(p_var, in_process, ok_proc, t_var, new_tag, ok_tag);
                let conv_b = (*b).rec_subst(p_var, in_process, ok_proc, t_var, new_tag, ok_tag);
                Process::Par(Box::new(conv_a), Box::new(conv_b))
            },
            Process::Send(ch_name, p) => {
                let conv_p = (*p).rec_subst(p_var, in_process, ok_proc, t_var, new_tag, ok_tag);
                Process::Send(ch_name, Box::new(conv_p))
            },
            Process::Recv(ch_name, new_p_var, new_t_var, new_next_proc) => {
                let ok_proc2 = ok_proc && !new_p_var.same_as(p_var);
                let ok_tag2 = ok_tag && !new_t_var.same_as(t_var);
                let conv_next_proc = (*new_next_proc).rec_subst(
                    p_var,
                    in_process,
                    ok_proc2,
                    t_var,
                    new_tag,
                    ok_tag2,
                );
                Process::Recv(ch_name, new_p_var, new_t_var, Box::new(conv_next_proc))
            },
            Process::PVar(var) => {
                if ok_proc && var.same_as(p_var) {
                    in_process.clone()
                } else {
                    Process::PVar(var)
                }
            },
            Process::RollK(roll_key) => Process::RollK(roll_key),
            Process::RollV(roll_var) => {
                if ok_tag && roll_var.same_as(t_var) {
                    Process::RollK(new_tag.clone())
                } else {
                    Process::RollV(roll_var)
                }
            },
        }
    }
}

} // verus!
