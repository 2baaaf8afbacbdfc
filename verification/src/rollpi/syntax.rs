//! The terms of the calculus: names, tags, processes and the primitive
//! processes that a participant schedules, each with its mathematical view.

use crate::text::{decimal, push_decimal};
use vstd::prelude::*;
use vstd::string::StringExecFns;

verus! {

/// The name of a channel: a rendezvous point that all participants share.
#[derive(Debug, PartialEq)]
pub struct ChName(pub String);

/// A process variable, bound by a receive.
#[derive(Debug, PartialEq, Eq, Hash)]
pub struct ProcVar(pub String);

/// A tag variable, bound by a receive.
#[derive(Debug, PartialEq, Eq, Hash)]
pub struct TagVar(pub String);

/// The identifier of one computation step.
#[derive(Debug, PartialEq, Eq, Hash)]
pub struct TagKey(pub String);

/// What a participant schedules: its units of work, in order.
pub type PrimeState = Vec<TaggedPrimProc>;

/// The provenance of a unit of work.
#[derive(Debug, PartialEq, Eq, Hash)]
pub enum ProcTag {
    /// An atomic identifier.
    PTKey(TagKey),
    /// One fragment of a parallel composition: the fragment's own key, the
    /// number of fragments, and the key of the composition they come from.
    PTSplit(TagKey, i32, TagKey),
}

/// A process term.
#[derive(Debug, PartialEq)]
pub enum Process {
    End,
    PVar(ProcVar),
    Par(Box<Process>, Box<Process>),
    Send(ChName, Box<Process>),
    Recv(ChName, ProcVar, TagVar, Box<Process>),
    RollV(TagVar),
    RollK(TagKey),
}

/// A process with its tag.
#[derive(Debug, PartialEq)]
pub struct TaggedProc {
    pub tag: ProcTag,
    pub proc: Process,
}

/// A process that can stand at top level: no parallel composition and no
/// variable.
#[derive(Debug, PartialEq)]
pub enum PrimProcess {
    End,
    RollK(TagKey),
    Send(ChName, Process),
    Recv(ChName, ProcVar, TagVar, Process),
}

/// A primitive process with its tag: the unit of work.
#[derive(Debug, PartialEq)]
pub struct TaggedPrimProc {
    pub tag: ProcTag,
    pub proc: PrimProcess,
}

/// The view of a `ProcTag`.
pub enum ProcTagView {
    Key(Seq<char>),
    Split(Seq<char>, int, Seq<char>),
}

/// The view of a `Process`.
pub enum ProcessView {
    End,
    PVar(Seq<char>),
    Par(Box<ProcessView>, Box<ProcessView>),
    Send(Seq<char>, Box<ProcessView>),
    Recv(Seq<char>, Seq<char>, Seq<char>, Box<ProcessView>),
    RollV(Seq<char>),
    RollK(Seq<char>),
}

/// The view of a `PrimProcess`.
pub enum PrimProcessView {
    End,
    RollK(Seq<char>),
    Send(Seq<char>, ProcessView),
    Recv(Seq<char>, Seq<char>, Seq<char>, ProcessView),
}

/// The view of a `TaggedProc`.
pub struct TaggedProcView {
    pub tag: ProcTagView,
    pub proc: ProcessView,
}

/// The view of a `TaggedPrimProc`.
pub struct TaggedPrimProcView {
    pub tag: ProcTagView,
    pub proc: PrimProcessView,
}

impl View for ChName {
    type V = Seq<char>;

    open spec fn view(&self) -> Seq<char> {
        self.0@
    }
}

impl View for ProcVar {
    type V = Seq<char>;

    open spec fn view(&self) -> Seq<char> {
        self.0@
    }
}

impl View for TagVar {
    type V = Seq<char>;

    open spec fn view(&self) -> Seq<char> {
        self.0@
    }
}

impl View for TagKey {
    type V = Seq<char>;

    open spec fn view(&self) -> Seq<char> {
        self.0@
    }
}

impl View for ProcTag {
    type V = ProcTagView;

    open spec fn view(&self) -> ProcTagView {
        match self {
            ProcTag::PTKey(k) => ProcTagView::Key(k@),
            ProcTag::PTSplit(frag, cnt, orig) => ProcTagView::Split(frag@, *cnt as int, orig@),
        }
    }
}

impl Process {
    /// The mathematical term that this process stands for.
    pub open spec fn model(&self) -> ProcessView
        decreases self,
    {
        match self {
            Process::End => ProcessView::End,
            Process::PVar(v) => ProcessView::PVar(v@),
            Process::Par(a, b) => ProcessView::Par(Box::new(a.model()), Box::new(b.model())),
            Process::Send(ch, p) => ProcessView::Send(ch@, Box::new(p.model())),
            Process::Recv(ch, pv, tv, p) => ProcessView::Recv(ch@, pv@, tv@, Box::new(p.model())),
            Process::RollV(v) => ProcessView::RollV(v@),
            Process::RollK(k) => ProcessView::RollK(k@),
        }
    }
}

impl View for Process {
    type V = ProcessView;

    open spec fn view(&self) -> ProcessView {
        self.model()
    }
}

impl View for PrimProcess {
    type V = PrimProcessView;

    open spec fn view(&self) -> PrimProcessView {
        match self {
            PrimProcess::End => PrimProcessView::End,
            PrimProcess::RollK(k) => PrimProcessView::RollK(k@),
            PrimProcess::Send(ch, p) => PrimProcessView::Send(ch@, p@),
            PrimProcess::Recv(ch, pv, tv, p) => PrimProcessView::Recv(ch@, pv@, tv@, p@),
        }
    }
}

impl View for TaggedProc {
    type V = TaggedProcView;

    open spec fn view(&self) -> TaggedProcView {
        TaggedProcView { tag: self.tag@, proc: self.proc@ }
    }
}

impl View for TaggedPrimProc {
    type V = TaggedPrimProcView;

    open spec fn view(&self) -> TaggedPrimProcView {
        TaggedPrimProcView { tag: self.tag@, proc: self.proc@ }
    }
}

/// The views of the elements of `s`, in order.
pub open spec fn views<T: View>(s: Seq<T>) -> Seq<T::V> {
    Seq::new(s.len(), |i: int| s[i]@)
}

/// Appending an element appends its view.
pub proof fn lemma_views_push<T: View>(s: Seq<T>, x: T)
    ensures
        views(s.push(x)) == views(s).push(x@),
{
    assert(views(s.push(x)) =~= views(s).push(x@));
}

/// The views of a concatenation are the concatenation of the views.
pub proof fn lemma_views_add<T: View>(s: Seq<T>, t: Seq<T>)
    ensures
        views(s + t) == views(s) + views(t),
{
    assert(views(s + t) =~= views(s) + views(t));
}

impl Clone for ChName {
    fn clone(&self) -> (r: Self)
        ensures
            r@ == self@,
    {
        ChName(self.0.clone())
    }
}

impl Clone for ProcVar {
    fn clone(&self) -> (r: Self)
        ensures
            r@ == self@,
    {
        ProcVar(self.0.clone())
    }
}

impl Clone for TagVar {
    fn clone(&self) -> (r: Self)
        ensures
            r@ == self@,
    {
        TagVar(self.0.clone())
    }
}

impl Clone for TagKey {
    fn clone(&self) -> (r: Self)
        ensures
            r@ == self@,
    {
        TagKey(self.0.clone())
    }
}

impl Clone for ProcTag {
    fn clone(&self) -> (r: Self)
        ensures
            r@ == self@,
    {
        match self {
            ProcTag::PTKey(k) => ProcTag::PTKey(k.clone()),
            ProcTag::PTSplit(frag, cnt, orig) => ProcTag::PTSplit(frag.clone(), *cnt, orig.clone()),
        }
    }
}

impl Clone for Process {
    fn clone(&self) -> (r: Self)
        ensures
            r@ == self@,
        decreases self,
    {
        match self {
            Process::End => Process::End,
            Process::PVar(v) => Process::PVar(v.clone()),
            Process::Par(a, b) => Process::Par(Box::new((**a).clone()), Box::new((**b).clone())),
            Process::Send(ch, p) => Process::Send(ch.clone(), Box::new((**p).clone())),
            Process::Recv(ch, pv, tv, p) => Process::Recv(
                ch.clone(),
                pv.clone(),
                tv.clone(),
                Box::new((**p).clone()),
            ),
            Process::RollV(v) => Process::RollV(v.clone()),
            Process::RollK(k) => Process::RollK(k.clone()),
        }
    }
}

impl Clone for PrimProcess {
    fn clone(&self) -> (r: Self)
        ensures
            r@ == self@,
    {
        match self {
            PrimProcess::End => PrimProcess::End,
            PrimProcess::RollK(k) => PrimProcess::RollK(k.clone()),
            PrimProcess::Send(ch, p) => PrimProcess::Send(ch.clone(), p.clone()),
            PrimProcess::Recv(ch, pv, tv, p) => PrimProcess::Recv(
                ch.clone(),
                pv.clone(),
                tv.clone(),
                p.clone(),
            ),
        }
    }
}

impl Clone for TaggedProc {
    fn clone(&self) -> (r: Self)
        ensures
            r@ == self@,
    {
        TaggedProc { tag: self.tag.clone(), proc: self.proc.clone() }
    }
}

impl Clone for TaggedPrimProc {
    fn clone(&self) -> (r: Self)
        ensures
            r@ == self@,
    {
        TaggedPrimProc { tag: self.tag.clone(), proc: self.proc.clone() }
    }
}

impl ChName {
    /// Whether the two names are the same.
    pub fn same_as(&self, other: &ChName) -> (b: bool)
        ensures
            b == (self@ == other@),
    {
        self.0 == other.0
    }
}

impl ProcVar {
    /// Whether the two variables are the same.
    pub fn same_as(&self, other: &ProcVar) -> (b: bool)
        ensures
            b == (self@ == other@),
    {
        self.0 == other.0
    }
}

impl TagVar {
    /// Whether the two variables are the same.
    pub fn same_as(&self, other: &TagVar) -> (b: bool)
        ensures
            b == (self@ == other@),
    {
        self.0 == other.0
    }
}

impl TagKey {
    /// Whether the two keys are the same.
    pub fn same_as(&self, other: &TagKey) -> (b: bool)
        ensures
            b == (self@ == other@),
    {
        self.0 == other.0
    }
}

impl ProcTag {
    /// Whether the two tags are the same.
    pub fn same_as(&self, other: &ProcTag) -> (b: bool)
        ensures
            b == (self@ == other@),
    {
        match self {
            ProcTag::PTKey(k) => match other {
                ProcTag::PTKey(k2) => k.same_as(k2),
                ProcTag::PTSplit(_, _, _) => false,
            },
            ProcTag::PTSplit(frag, cnt, orig) => match other {
                ProcTag::PTKey(_) => false,
                ProcTag::PTSplit(frag2, cnt2, orig2) => frag.same_as(frag2) && *cnt == *cnt2
                    && orig.same_as(orig2),
            },
        }
    }
}

impl ProcessView {
    /// The top-level parallel components, from left to right.
    pub open spec fn flatten(self) -> Seq<ProcessView>
        decreases self,
    {
        match self {
            ProcessView::Par(a, b) => a.flatten() + b.flatten(),
            _ => seq![self],
        }
    }

    /// Whether the term can stand at top level as it is.
    pub open spec fn is_prime(self) -> bool {
        self is End || self is Send || self is Recv || self is RollK
    }

    /// The primitive process that a prime term is.
    pub open spec fn to_prime(self) -> PrimProcessView {
        match self {
            ProcessView::Send(ch, p) => PrimProcessView::Send(ch, *p),
            ProcessView::Recv(ch, pv, tv, p) => PrimProcessView::Recv(ch, pv, tv, *p),
            ProcessView::RollK(k) => PrimProcessView::RollK(k),
            _ => PrimProcessView::End,
        }
    }

    /// The names of all channels that occur in the term.
    pub open spec fn chan_names(self) -> Set<Seq<char>>
        decreases self,
    {
        match self {
            ProcessView::Par(a, b) => a.chan_names().union(b.chan_names()),
            ProcessView::Send(ch, p) => p.chan_names().insert(ch),
            ProcessView::Recv(ch, _, _, p) => p.chan_names().insert(ch),
            _ => Set::empty(),
        }
    }

    /// Whether every process variable of the term is bound by an enclosing
    /// receive or is in `env`.
    pub open spec fn pvars_closed(self, env: Set<Seq<char>>) -> bool
        decreases self,
    {
        match self {
            ProcessView::PVar(v) => env.contains(v),
            ProcessView::Par(a, b) => a.pvars_closed(env) && b.pvars_closed(env),
            ProcessView::Send(_, p) => p.pvars_closed(env),
            ProcessView::Recv(_, pv, _, p) => p.pvars_closed(env.insert(pv)),
            _ => true,
        }
    }

    /// Whether every rollback of the term names a tag variable that is bound
    /// by an enclosing receive or is in `env`. A rollback to a tag key is
    /// not accepted: keys exist only once a run has begun.
    pub open spec fn tvars_closed(self, env: Set<Seq<char>>) -> bool
        decreases self,
    {
        match self {
            ProcessView::Par(a, b) => a.tvars_closed(env) && b.tvars_closed(env),
            ProcessView::Send(_, p) => p.tvars_closed(env),
            ProcessView::Recv(_, _, tv, p) => p.tvars_closed(env.insert(tv)),
            ProcessView::RollV(v) => env.contains(v),
            ProcessView::RollK(_) => false,
            _ => true,
        }
    }

    /// The process variables that the receives of the term bind, one for
    /// each receive, from left to right.
    pub open spec fn pvar_binders(self) -> Seq<Seq<char>>
        decreases self,
    {
        match self {
            ProcessView::Par(a, b) => a.pvar_binders() + b.pvar_binders(),
            ProcessView::Send(_, p) => p.pvar_binders(),
            ProcessView::Recv(_, pv, _, p) => seq![pv] + p.pvar_binders(),
            _ => Seq::empty(),
        }
    }

    /// The tag variables that the receives of the term bind, one for each
    /// receive, from left to right.
    pub open spec fn tvar_binders(self) -> Seq<Seq<char>>
        decreases self,
    {
        match self {
            ProcessView::Par(a, b) => a.tvar_binders() + b.tvar_binders(),
            ProcessView::Send(_, p) => p.tvar_binders(),
            ProcessView::Recv(_, _, tv, p) => seq![tv] + p.tvar_binders(),
            _ => Seq::empty(),
        }
    }

    /// Whether each variable is bound at most once in the term: no two
    /// receives bind the same process variable, and no two the same tag
    /// variable.
    pub open spec fn binds_once(self) -> bool {
        self.pvar_binders().no_duplicates() && self.tvar_binders().no_duplicates()
    }

    /// What an initial configuration must satisfy: no free process
    /// variable, no free tag variable, no rollback to a key, and no variable
    /// bound more than once.
    pub open spec fn well_formed(self) -> bool {
        &&& self.pvars_closed(Set::empty())
        &&& self.tvars_closed(Set::empty())
        &&& self.binds_once()
    }
}

impl PrimProcessView {
    /// The term that the primitive process is.
    pub open spec fn to_process(self) -> ProcessView {
        match self {
            PrimProcessView::End => ProcessView::End,
            PrimProcessView::RollK(k) => ProcessView::RollK(k),
            PrimProcessView::Send(ch, p) => ProcessView::Send(ch, Box::new(p)),
            PrimProcessView::Recv(ch, pv, tv, p) => ProcessView::Recv(ch, pv, tv, Box::new(p)),
        }
    }
}

/// The parallel composition of the terms of `s`, nested to the right; the
/// inert process where `s` is empty.
pub open spec fn compose(s: Seq<ProcessView>) -> ProcessView
    decreases s.len(),
{
    if s.len() == 0 {
        ProcessView::End
    } else if s.len() == 1 {
        s[0]
    } else {
        ProcessView::Par(Box::new(s[0]), Box::new(compose(s.drop_first())))
    }
}

/// The key of the `i`-th fragment of the process whose key is `orig`.
pub open spec fn fragment_key(i: nat, orig: Seq<char>) -> Seq<char> {
    seq!['s', 'p', '_'] + decimal(i) + seq!['_'] + orig
}

impl ProcTagView {
    /// The key under which the fragments of a process with this tag are
    /// filed: the key itself, or a fragment's own key.
    pub open spec fn key(self) -> Seq<char> {
        match self {
            ProcTagView::Key(k) => k,
            ProcTagView::Split(frag, _, _) => frag,
        }
    }
}

impl TaggedProcView {
    /// The units of work that the tagged process falls into: one for each
    /// top-level parallel component, each tagged as a fragment.
    pub open spec fn prime_state(self) -> Seq<TaggedPrimProcView> {
        let parts = self.proc.flatten();
        Seq::new(
            parts.len(),
            |i: int|
                TaggedPrimProcView {
                    tag: ProcTagView::Split(
                        fragment_key(i as nat, self.tag.key()),
                        (parts.len() as i32) as int,
                        self.tag.key(),
                    ),
                    proc: parts[i].to_prime(),
                },
        )
    }

    /// Whether every top-level parallel component can stand at top level.
    pub open spec fn splits(self) -> bool {
        forall|i: int| 0 <= i < self.proc.flatten().len() ==> (#[trigger] self.proc.flatten()[i]).is_prime()
    }
}

/// A flattened term has at least one component, and none of them is a
/// parallel composition.
pub proof fn lemma_flatten_shape(p: ProcessView)
    ensures
        p.flatten().len() >= 1,
        forall|i: int| 0 <= i < p.flatten().len() ==> !((#[trigger] p.flatten()[i]) is Par),
    decreases p,
{
    match p {
        ProcessView::Par(a, b) => {
            lemma_flatten_shape(*a);
            lemma_flatten_shape(*b);
        },
        _ => {},
    }
}

/// Composing components that are no parallel compositions and flattening the
/// result gives the components back.
pub proof fn lemma_flatten_compose(s: Seq<ProcessView>)
    requires
        s.len() >= 1,
        forall|i: int| 0 <= i < s.len() ==> !((#[trigger] s[i]) is Par),
    ensures
        compose(s).flatten() == s,
    decreases s.len(),
{
    if s.len() == 1 {
        assert(s[0].flatten() =~= s);
    } else {
        let rest = s.drop_first();
        assert forall|i: int| 0 <= i < rest.len() implies !((#[trigger] rest[i]) is Par) by {
            assert(rest[i] == s[i + 1]);
        }
        lemma_flatten_compose(rest);
        assert(s[0].flatten() == seq![s[0]]);
        assert(seq![s[0]] + rest =~= s);
    }
}

impl Process {
    /// The primitive process that this process is.
    pub fn to_prime_process(&self) -> (r: PrimProcess)
        requires
            self@.is_prime(),
        ensures
            r@ == self@.to_prime(),
    {
        match self {
            Process::Send(chn, p) => PrimProcess::Send(chn.clone(), (**p).clone()),
            Process::Recv(chn, pv, tv, p) => PrimProcess::Recv(
                chn.clone(),
                pv.clone(),
                tv.clone(),
                (**p).clone(),
            ),
            Process::RollK(roll_key) => PrimProcess::RollK(roll_key.clone()),
            _ => PrimProcess::End,
        }
    }

    /// Whether the process can stand at top level as it is.
    pub fn is_prime(&self) -> (b: bool)
        ensures
            b == self@.is_prime(),
    {
        match self {
            Process::End => true,
            Process::Send(_, _) => true,
            Process::Recv(_, _, _, _) => true,
            Process::RollK(_) => true,
            _ => false,
        }
    }

    /// The process with the tag `arg_tag`.
    pub fn to_tagged_process(self, arg_tag: ProcTag) -> (r: TaggedProc)
        ensures
            r == (TaggedProc { tag: arg_tag, proc: self }),
    {
        TaggedProc { tag: arg_tag, proc: self }
    }

    /// The parallel composition of `procs`, nested to the right.
    pub fn parallel_compose(procs: Vec<Process>) -> (r: Process)
        ensures
            r@ == compose(views(procs@)),
    {
        let mut procs = procs;
        let ghost all = views(procs@);
        match procs.pop() {
            None => {
                assert(all.len() == 0);
                Process::End
            },
            Some(last) => {
                let mut acc = last;
                assert(all.subrange(all.len() - 1, all.len() as int) =~= seq![acc@]);
                while procs.len() > 0
                    invariant
                        procs.len() < all.len(),
                        views(procs@) == all.subrange(0, procs.len() as int),
                        acc@ == compose(all.subrange(procs.len() as int, all.len() as int)),
                    decreases procs.len(),
                {
                    let ghost n = procs.len() as int;
                    let p = procs.pop().unwrap();
                    proof {
                        let tail = all.subrange(n - 1, all.len() as int);
                        assert(tail.drop_first() =~= all.subrange(n, all.len() as int));
                        assert(tail[0] == all[n - 1]);
                        assert(all[n - 1] == all.subrange(0, n)[n - 1]);
                        assert(views(procs@) =~= all.subrange(0, n - 1));
                    }
                    acc = Process::Par(Box::new(p), Box::new(acc));
                }
                assert(all.subrange(0, all.len() as int) =~= all);
                acc
            },
        }
    }

    /// The top-level parallel components of the process, from left to right.
    pub fn get_first_order_par_processes(self) -> (r: Vec<Process>)
        ensures
            views(r@) == self@.flatten(),
        decreases self,
    {
        match self {
            Process::Par(a, b) => {
                let mut vec_a = (*a).get_first_order_par_processes();
                let mut vec_b = (*b).get_first_order_par_processes();
                proof {
                    lemma_views_add(vec_a@, vec_b@);
                }
                vec_a.append(&mut vec_b);
                vec_a
            },
            other => {
                let mut v = Vec::new();
                let ghost m = other@;
                v.push(other);
                assert(views(v@) =~= seq![m]);
                v
            },
        }
    }
}

impl PrimProcess {
    /// The process that this primitive process is.
    pub fn to_process(self) -> (r: Process)
        ensures
            r@ == self@.to_process(),
    {
        match self {
            PrimProcess::End => Process::End,
            PrimProcess::RollK(tag) => Process::RollK(tag),
            PrimProcess::Send(ch_name, proc) => Process::Send(ch_name, Box::new(proc)),
            PrimProcess::Recv(ch_name, p_var, t_var, proc) => Process::Recv(
                ch_name,
                p_var,
                t_var,
                Box::new(proc),
            ),
        }
    }
}

/// The key of the `i`-th fragment of the process whose key is `orig`.
pub fn make_fragment_key(i: usize, orig: &TagKey) -> (r: TagKey)
    ensures
        r@ == fragment_key(i as nat, orig@),
{
    proof {
        reveal_strlit("sp_");
        reveal_strlit("_");
    }
    let mut s = String::from_str("sp_");
    push_decimal(&mut s, i);
    s.append("_");
    s.append(orig.0.as_str());
    assert(s@ =~= fragment_key(i as nat, orig@));
    TagKey(s)
}

impl TaggedProc {
    /// Whether every top-level parallel component of the process can stand
    /// at top level.
    pub fn splits(&self) -> (b: bool)
        ensures
            b == self@.splits(),
    {
        prime_components(&self.proc)
    }

    /// The units of work that the tagged process falls into.
    pub fn to_prime_state(self) -> (r: PrimeState)
        requires
            self@.splits(),
        ensures
            views(r@) == self@.prime_state(),
    {
        let ghost me = self@;
        let TaggedProc { tag, proc } = self;
        let og_key = match tag {
            ProcTag::PTKey(t_key) => t_key,
            ProcTag::PTSplit(t_key, _cnt, _og_t) => t_key,
        };
        let vec_procs = proc.get_first_order_par_processes();
        let total_cnt_procs = vec_procs.len();
        let mut r: Vec<TaggedPrimProc> = Vec::new();
        let mut i: usize = 0;
        while i < total_cnt_procs
            invariant
                i <= total_cnt_procs,
                total_cnt_procs == vec_procs.len(),
                views(vec_procs@) == me.proc.flatten(),
                og_key@ == me.tag.key(),
                me.splits(),
                r.len() == i,
                forall|j: int| 0 <= j < i ==> (#[trigger] r[j])@ == me.prime_state()[j],
            decreases total_cnt_procs - i,
        {
            assert(vec_procs[i as int]@ == views(vec_procs@)[i as int]);
            let frag_tag = ProcTag::PTSplit(
                make_fragment_key(i, &og_key),
                #[verifier::truncate]
                (total_cnt_procs as i32),
                og_key.clone(),
            );
            let unit = TaggedPrimProc { tag: frag_tag, proc: vec_procs[i].to_prime_process() };
            r.push(unit);
            i += 1;
        }
        assert(views(r@) =~= me.prime_state());
        r
    }
}

/// Whether every top-level parallel component of `proc` can stand at top
/// level.
fn prime_components(proc: &Process) -> (b: bool)
    ensures
        b == (forall|i: int| 0 <= i < proc@.flatten().len() ==> (#[trigger] proc@.flatten()[i]).is_prime()),
    decreases proc,
{
    match proc {
        Process::Par(a, b) => {
            let ra = prime_components(a);
            let rb = prime_components(b);
            proof {
                let fa = a@.flatten();
                let fb = b@.flatten();
                let f = proc@.flatten();
                assert(f == fa + fb);
                if ra && rb {
                    assert forall|i: int| 0 <= i < f.len() implies (#[trigger] f[i]).is_prime() by {
                        if i < fa.len() {
                            assert(f[i] == fa[i]);
                        } else {
                            assert(f[i] == fb[i - fa.len()]);
                        }
                    }
                } else if !ra {
                    let i = choose|i: int| 0 <= i < fa.len() && !(#[trigger] fa[i]).is_prime();
                    assert(f[i] == fa[i]);
                } else {
                    let i = choose|i: int| 0 <= i < fb.len() && !(#[trigger] fb[i]).is_prime();
                    assert(f[i + fa.len()] == fb[i]);
                }
            }
            ra && rb
        },
        other => {
            let b = other.is_prime();
            assert(proc@.flatten() =~= seq![proc@]);
            assert(proc@.flatten()[0] == proc@);
            b
        },
    }
}

/// Whether one of `names` is `name`.
pub fn names_contain(names: &Vec<String>, name: &String) -> (b: bool)
    ensures
        b == views(names@).contains(name@),
{
    let mut i: usize = 0;
    while i < names.len()
        invariant
            i <= names.len(),
            forall|j: int| 0 <= j < i ==> views(names@)[j] != name@,
        decreases names.len() - i,
    {
        if names[i] == *name {
            assert(views(names@)[i as int] == name@);
            return true;
        }
        i += 1;
    }
    false
}

/// Appending a name adds it to the set of names.
pub proof fn lemma_names_push(s: Seq<String>, x: String)
    ensures
        views(s.push(x)).to_set() == views(s).to_set().insert(x@),
{
    lemma_views_push(s, x);
    let a = views(s);
    assert forall|n: Seq<char>| a.push(x@).to_set().contains(n) <==> a.to_set().insert(
        x@,
    ).contains(n) by {
        if a.push(x@).contains(n) {
            let i = choose|i: int| 0 <= i < a.push(x@).len() && a.push(x@)[i] == n;
            if i < a.len() {
                assert(a[i] == n);
            }
        }
        if a.contains(n) {
            let i = choose|i: int| 0 <= i < a.len() && a[i] == n;
            assert(a.push(x@)[i] == n);
        }
        if n == x@ {
            assert(a.push(x@)[a.len() as int] == n);
        }
    }
    assert(a.push(x@).to_set() =~= a.to_set().insert(x@));
}

/// Adds `name` to `acc` unless it is there already.
pub fn insert_name(acc: &mut Vec<String>, name: &String)
    requires
        views(old(acc)@).no_duplicates(),
    ensures
        views(final(acc)@).no_duplicates(),
        views(final(acc)@).to_set() == views(old(acc)@).to_set().insert(name@),
{
    if !names_contain(acc, name) {
        proof {
            lemma_names_push(acc@, *name);
        }
        let c = name.clone();
        proof {
            lemma_views_push(acc@, c);
        }
        acc.push(c);
    } else {
        assert(views(acc@).to_set().insert(name@) =~= views(acc@).to_set());
    }
}

/// Adds every name of `more` to `acc` unless it is there already.
pub fn merge_names(acc: &mut Vec<String>, more: &Vec<String>)
    requires
        views(old(acc)@).no_duplicates(),
    ensures
        views(final(acc)@).no_duplicates(),
        views(final(acc)@).to_set() == views(old(acc)@).to_set().union(views(more@).to_set()),
{
    let ghost all = views(more@);
    let mut i: usize = 0;
    assert(all.take(0).to_set() =~= Set::<Seq<char>>::empty());
    assert(views(acc@).to_set().union(Set::<Seq<char>>::empty()) =~= views(acc@).to_set());
    while i < more.len()
        invariant
            i <= more.len(),
            all == views(more@),
            views(acc@).no_duplicates(),
            views(acc@).to_set() == views(old(acc)@).to_set().union(all.take(i as int).to_set()),
        decreases more.len() - i,
    {
        insert_name(acc, &more[i]);
        proof {
            lemma_names_push(more@.take(i as int), more[i as int]);
            assert(views(more@.take(i as int)) =~= all.take(i as int));
            assert(views(more@.take(i as int).push(more[i as int])) =~= all.take(i + 1));
            assert(views(acc@).to_set() =~= views(old(acc)@).to_set().union(
                all.take(i + 1).to_set(),
            ));
        }
        i += 1;
    }
    assert(all.take(more.len() as int) =~= all);
}

fn collect_chn_names(proc: &Process, acc: &mut Vec<String>)
    requires
        views(old(acc)@).no_duplicates(),
    ensures
        views(final(acc)@).no_duplicates(),
        views(final(acc)@).to_set() == views(old(acc)@).to_set().union(proc@.chan_names()),
    decreases proc,
{
    match proc {
        Process::Par(p_left, p_right) => {
            collect_chn_names(p_left, acc);
            collect_chn_names(p_right, acc);
            assert(views(old(acc)@).to_set().union(p_left@.chan_names()).union(
                p_right@.chan_names(),
            ) =~= views(old(acc)@).to_set().union(proc@.chan_names()));
        },
        Process::Send(ch_name, p) => {
            collect_chn_names(p, acc);
            insert_name(acc, &ch_name.0);
            assert(views(old(acc)@).to_set().union(p@.chan_names()).insert(ch_name@) =~= views(
                old(acc)@,
            ).to_set().union(proc@.chan_names()));
        },
        Process::Recv(ch_name, _, _, p) => {
            collect_chn_names(p, acc);
            insert_name(acc, &ch_name.0);
            assert(views(old(acc)@).to_set().union(p@.chan_names()).insert(ch_name@) =~= views(
                old(acc)@,
            ).to_set().union(proc@.chan_names()));
        },
        _ => {
            assert(views(acc@).to_set().union(proc@.chan_names()) =~= views(acc@).to_set());
        },
    }
}

/// The names of all channels that occur in `proc`, each once.
pub fn all_chn_names_proc(proc: &Process) -> (r: Vec<String>)
    ensures
        views(r@).no_duplicates(),
        views(r@).to_set() == proc@.chan_names(),
{
    let mut acc: Vec<String> = Vec::new();
    assert(views(acc@).to_set() =~= Set::<Seq<char>>::empty());
    collect_chn_names(proc, &mut acc);
    assert(Set::<Seq<char>>::empty().union(proc@.chan_names()) =~= proc@.chan_names());
    acc
}

/// The names of all channels that occur in the first `n` units of `state`.
pub open spec fn state_chan_names(state: Seq<TaggedPrimProcView>, n: int) -> Set<Seq<char>>
    decreases n,
{
    if n <= 0 {
        Set::empty()
    } else {
        state_chan_names(state, n - 1).union(state[n - 1].proc.to_process().chan_names())
    }
}

/// The names of all channels that occur in the units of `proc`, each once.
pub fn all_chn_names_state(proc: &PrimeState) -> (r: Vec<String>)
    ensures
        views(r@).no_duplicates(),
        views(r@).to_set() == state_chan_names(views(proc@), proc.len() as int),
{
    let mut acc: Vec<String> = Vec::new();
    assert(views(acc@).to_set() =~= Set::<Seq<char>>::empty());
    let mut i: usize = 0;
    while i < proc.len()
        invariant
            i <= proc.len(),
            views(acc@).no_duplicates(),
            views(acc@).to_set() == state_chan_names(views(proc@), i as int),
        decreases proc.len() - i,
    {
        let term = proc[i].proc.clone().to_process();
        assert(term@ == views(proc@)[i as int].proc.to_process());
        collect_chn_names(&term, &mut acc);
        i += 1;
    }
    acc
}

fn rec_check_pvar_closed(proc: &Process, env: &mut Vec<String>) -> (b: bool)
    ensures
        final(env)@ == old(env)@,
        b == proc@.pvars_closed(views(old(env)@).to_set()),
    decreases proc,
{
    match proc {
        Process::PVar(pvar) => names_contain(env, &pvar.0),
        Process::Par(a, b) => {
            let ra = rec_check_pvar_closed(a, env);
            let rb = rec_check_pvar_closed(b, env);
            ra && rb
        },
        Process::Send(_, p) => rec_check_pvar_closed(p, env),
        Process::Recv(_, pvar, _, p) => {
            proof {
                lemma_names_push(env@, pvar.0);
            }
            let c = pvar.0.clone();
            assert(views(env@.push(c)) =~= views(env@.push(pvar.0)));
            env.push(c);
            let r = rec_check_pvar_closed(p, env);
            env.pop();
            assert(env@ =~= old(env)@);
            r
        },
        _ => true,
    }
}

/// Whether every process variable of `proc` is bound by an enclosing
/// receive.
pub fn check_all_pvar_closed(proc: &Process) -> (b: bool)
    ensures
        b == proc@.pvars_closed(Set::empty()),
{
    let mut env: Vec<String> = Vec::new();
    assert(views(env@).to_set() =~= Set::<Seq<char>>::empty());
    rec_check_pvar_closed(proc, &mut env)
}

fn rec_check_tvar_closed(proc: &Process, env: &mut Vec<String>) -> (b: bool)
    ensures
        final(env)@ == old(env)@,
        b == proc@.tvars_closed(views(old(env)@).to_set()),
    decreases proc,
{
    match proc {
        Process::Par(a, b) => {
            let ra = rec_check_tvar_closed(a, env);
            let rb = rec_check_tvar_closed(b, env);
            ra && rb
        },
        Process::Send(_, p) => rec_check_tvar_closed(p, env),
        Process::Recv(_, _, tvar, p) => {
            proof {
                lemma_names_push(env@, tvar.0);
            }
            let c = tvar.0.clone();
            assert(views(env@.push(c)) =~= views(env@.push(tvar.0)));
            env.push(c);
            let r = rec_check_tvar_closed(p, env);
            env.pop();
            assert(env@ =~= old(env)@);
            r
        },
        Process::RollV(tag_var) => names_contain(env, &tag_var.0),
        Process::RollK(_) => false,
        _ => true,
    }
}

/// Whether every rollback of `proc` names a tag variable that an enclosing
/// receive binds.
pub fn check_all_tvar_closed(proc: &Process) -> (b: bool)
    ensures
        b == proc@.tvars_closed(Set::empty()),
{
    let mut env: Vec<String> = Vec::new();
    assert(views(env@).to_set() =~= Set::<Seq<char>>::empty());
    rec_check_tvar_closed(proc, &mut env)
}

/// A sequence without repetition has none in what it begins with.
proof fn lemma_no_duplicates_prefix(x: Seq<Seq<char>>, y: Seq<Seq<char>>)
    requires
        (x + y).no_duplicates(),
    ensures
        x.no_duplicates(),
{
    assert forall|i: int, j: int| 0 <= i < x.len() && 0 <= j < x.len() && i != j implies x[i]
        != x[j] by {
        assert((x + y)[i] == x[i]);
        assert((x + y)[j] == x[j]);
    }
}

fn rec_check_unique_pvar_tvar(proc: &Process, p_seen: &mut Vec<String>, t_seen: &mut Vec<String>) -> (b:
    bool)
    requires
        views(old(p_seen)@).no_duplicates(),
        views(old(t_seen)@).no_duplicates(),
    ensures
        b == ((views(old(p_seen)@) + proc@.pvar_binders()).no_duplicates() && (views(old(t_seen)@)
            + proc@.tvar_binders()).no_duplicates()),
        b ==> views(final(p_seen)@) == views(old(p_seen)@) + proc@.pvar_binders(),
        b ==> views(final(t_seen)@) == views(old(t_seen)@) + proc@.tvar_binders(),
    decreases proc,
{
    let ghost p0 = views(p_seen@);
    let ghost t0 = views(t_seen@);
    match proc {
        Process::Par(a, b) => {
            let ra = rec_check_unique_pvar_tvar(a, p_seen, t_seen);
            proof {
                assert((p0 + a@.pvar_binders()) + b@.pvar_binders() =~= p0 + proc@.pvar_binders());
                assert((t0 + a@.tvar_binders()) + b@.tvar_binders() =~= t0 + proc@.tvar_binders());
                if (p0 + proc@.pvar_binders()).no_duplicates() {
                    lemma_no_duplicates_prefix(p0 + a@.pvar_binders(), b@.pvar_binders());
                }
                if (t0 + proc@.tvar_binders()).no_duplicates() {
                    lemma_no_duplicates_prefix(t0 + a@.tvar_binders(), b@.tvar_binders());
                }
            }
            if !ra {
                return false;
            }
            rec_check_unique_pvar_tvar(b, p_seen, t_seen)
        },
        Process::Send(_, p) => rec_check_unique_pvar_tvar(p, p_seen, t_seen),
        Process::Recv(_, pvar, tvar, p) => {
            let ghost p_all = p0 + proc@.pvar_binders();
            let ghost t_all = t0 + proc@.tvar_binders();
            proof {
                assert(p_all[p0.len() as int] == pvar@);
                assert(t_all[t0.len() as int] == tvar@);
                assert(p0.push(pvar@) + p@.pvar_binders() =~= p_all);
                assert(t0.push(tvar@) + p@.tvar_binders() =~= t_all);
            }
            if names_contain(p_seen, &pvar.0) {
                proof {
                    let i = choose|i: int| 0 <= i < p0.len() && p0[i] == pvar@;
                    assert(p_all[i] == pvar@);
                }
                return false;
            }
            if names_contain(t_seen, &tvar.0) {
                proof {
                    let i = choose|i: int| 0 <= i < t0.len() && t0[i] == tvar@;
                    assert(t_all[i] == tvar@);
                }
                return false;
            }
            let pc = pvar.0.clone();
            let tc = tvar.0.clone();
            proof {
                lemma_views_push(p_seen@, pc);
                lemma_views_push(t_seen@, tc);
                assert forall|i: int, j: int|
                    0 <= i < p0.len() + 1 && 0 <= j < p0.len() + 1 && i != j implies p0.push(
                    pvar@,
                )[i] != p0.push(pvar@)[j] by {
                    if i < p0.len() {
                        assert(p0.contains(p0[i]));
                    }
                    if j < p0.len() {
                        assert(p0.contains(p0[j]));
                    }
                }
                assert forall|i: int, j: int|
                    0 <= i < t0.len() + 1 && 0 <= j < t0.len() + 1 && i != j implies t0.push(
                    tvar@,
                )[i] != t0.push(tvar@)[j] by {
                    if i < t0.len() {
                        assert(t0.contains(t0[i]));
                    }
                    if j < t0.len() {
                        assert(t0.contains(t0[j]));
                    }
                }
            }
            p_seen.push(pc);
            t_seen.push(tc);
            rec_check_unique_pvar_tvar(p, p_seen, t_seen)
        },
        _ => {
            assert(p0 + proc@.pvar_binders() =~= p0);
            assert(t0 + proc@.tvar_binders() =~= t0);
            true
        },
    }
}

/// Whether each variable is bound at most once in `proc`.
pub fn check_unique_pvar_tvar(proc: &Process) -> (b: bool)
    ensures
        b == proc@.binds_once(),
{
    let mut p_seen: Vec<String> = Vec::new();
    let mut t_seen: Vec<String> = Vec::new();
    assert(views(p_seen@) + proc@.pvar_binders() =~= proc@.pvar_binders());
    assert(views(t_seen@) + proc@.tvar_binders() =~= proc@.tvar_binders());
    rec_check_unique_pvar_tvar(proc, &mut p_seen, &mut t_seen)
}

/// Whether every process of `procs` is accepted as an initial
/// configuration.
pub fn check_initial_conf_list(procs: &Vec<Process>) -> (b: bool)
    ensures
        b == (forall|i: int| 0 <= i < procs.len() ==> (#[trigger] procs[i])@.well_formed()),
{
    let mut i: usize = 0;
    while i < procs.len()
        invariant
            i <= procs.len(),
            forall|j: int| 0 <= j < i ==> (#[trigger] procs[j])@.well_formed(),
        decreases procs.len() - i,
    {
        if !check_initial_conf(&procs[i]) {
            return false;
        }
        i += 1;
    }
    true
}

/// Whether `proc` is accepted as an initial configuration: closed in its
/// process variables and in its tag variables, and binding each variable at
/// most once.
pub fn check_initial_conf(proc: &Process) -> (b: bool)
    ensures
        b == proc@.well_formed(),
{
    check_all_pvar_closed(proc) && check_all_tvar_closed(proc) && check_unique_pvar_tvar(proc)
}

/// Why a process is refused as an initial configuration.
#[derive(Debug, PartialEq, Eq)]
pub enum ConfError {
    /// A process variable is bound by no enclosing receive.
    OpenProcessVariable,
    /// A rollback names a tag variable that no enclosing receive binds, or
    /// names a key.
    OpenTagVariable,
    /// Two receives bind the same variable.
    DuplicateBinding,
}

/// What `validate_initial_conf` answers for the term `p`: the first of the
/// three checks that fails, in the order process variables, tag variables,
/// bindings.
pub open spec fn verdict(p: ProcessView) -> Result<(), ConfError> {
    if !p.pvars_closed(Set::empty()) {
        Err(ConfError::OpenProcessVariable)
    } else if !p.tvars_closed(Set::empty()) {
        Err(ConfError::OpenTagVariable)
    } else if !p.binds_once() {
        Err(ConfError::DuplicateBinding)
    } else {
        Ok(())
    }
}

/// Accepts `proc` as an initial configuration, or says which check it
/// fails.
pub fn validate_initial_conf(proc: &Process) -> (r: Result<(), ConfError>)
    ensures
        r == verdict(proc@),
        r is Ok <==> proc@.well_formed(),
{
    if !check_all_pvar_closed(proc) {
        Err(ConfError::OpenProcessVariable)
    } else if !check_all_tvar_closed(proc) {
        Err(ConfError::OpenTagVariable)
    } else if !check_unique_pvar_tvar(proc) {
        Err(ConfError::DuplicateBinding)
    } else {
        Ok(())
    }
}

/// Accepts the batch `procs`, or names the first process that is refused,
/// by its place, with the check that it fails.
pub fn validate_initial_conf_list(procs: &Vec<Process>) -> (r: Result<(), (usize, ConfError)>)
    ensures
        match r {
            Ok(_) => forall|i: int| 0 <= i < procs.len() ==> (#[trigger] procs[i])@.well_formed(),
            Err((k, e)) => {
                &&& k < procs.len()
                &&& verdict(procs[k as int]@) == Err::<(), ConfError>(e)
                &&& forall|i: int| 0 <= i < k ==> (#[trigger] procs[i])@.well_formed()
            },
        },
{
    let mut i: usize = 0;
    while i < procs.len()
        invariant
            i <= procs.len(),
            forall|j: int| 0 <= j < i ==> (#[trigger] procs[j])@.well_formed(),
        decreases procs.len() - i,
    {
        match validate_initial_conf(&procs[i]) {
            Err(e) => {
                return Err((i, e));
            },
            Ok(_) => {},
        }
        i += 1;
    }
    Ok(())
}

} // verus!
