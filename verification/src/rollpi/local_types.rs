//! Local session types and the processes that act them out.

use super::syntax::{compose, views, ChName, ProcVar, Process, ProcessView, TagVar};
use vstd::prelude::*;
use vstd::string::StringExecFns;

verus! {

/// What one party of a session does, as seen from that party.
#[derive(Debug)]
pub enum LocalType {
    /// Nothing more.
    End,
    /// Sends to a party one of several labels and goes on as the label says.
    Send(String, Vec<(String, LocalType)>),
    /// Receives from a party one of several labels and goes on as the label
    /// says.
    Recv(String, Vec<(String, LocalType)>),
    /// A recursive type: the variable and the body.
    RAbs(String, Box<LocalType>),
    /// A recursion variable.
    RVar(String),
}

/// A local type with the name of the party whose type it is.
#[derive(Debug)]
pub struct PartLocalType {
    party: String,
    local_type: LocalType,
}

/// The view of a `LocalType`.
pub enum LocalTypeView {
    End,
    Send(Seq<char>, Seq<(Seq<char>, LocalTypeView)>),
    Recv(Seq<char>, Seq<(Seq<char>, LocalTypeView)>),
    RAbs(Seq<char>, Box<LocalTypeView>),
    RVar(Seq<char>),
}

impl LocalType {
    /// The type that this value stands for.
    pub open spec fn model(&self) -> LocalTypeView
        decreases self,
    {
        match self {
            LocalType::End => LocalTypeView::End,
            LocalType::Send(p, opts) => LocalTypeView::Send(
                p@,
                Seq::new(
                    opts@.len(),
                    |i: int|
                        if 0 <= i < opts@.len() {
                            (opts@[i].0@, opts@[i].1.model())
                        } else {
                            (Seq::empty(), LocalTypeView::End)
                        },
                ),
            ),
            LocalType::Recv(p, opts) => LocalTypeView::Recv(
                p@,
                Seq::new(
                    opts@.len(),
                    |i: int|
                        if 0 <= i < opts@.len() {
                            (opts@[i].0@, opts@[i].1.model())
                        } else {
                            (Seq::empty(), LocalTypeView::End)
                        },
                ),
            ),
            LocalType::RAbs(v, t) => LocalTypeView::RAbs(v@, Box::new(t.model())),
            LocalType::RVar(v) => LocalTypeView::RVar(v@),
        }
    }
}

impl View for LocalType {
    type V = LocalTypeView;

    open spec fn view(&self) -> LocalTypeView {
        self.model()
    }
}

/// The name `prefix a _ b`.
pub open spec fn name3(prefix: Seq<char>, a: Seq<char>, b: Seq<char>) -> Seq<char> {
    prefix + a + seq!['_'] + b
}

/// The tag variable that every receive of an encoding binds.
pub open spec fn unused_tag() -> Seq<char> {
    "_u_"@
}

/// The process that receives `n` times on `ord_ch` and then runs what it
/// received last.
pub open spec fn drain(ord_ch: Seq<char>, n: nat) -> ProcessView
    decreases n,
{
    if n == 0 {
        ProcessView::PVar("D"@)
    } else {
        ProcessView::Recv(ord_ch, "D"@, unused_tag(), Box::new(drain(ord_ch, (n - 1) as nat)))
    }
}

/// The branches of a send: for each label a send on the channel of that
/// label, with the process of what follows.
pub open spec fn send_branches(
    party: Seq<char>,
    base_snd_ch: Seq<char>,
    opts: Seq<(Seq<char>, LocalTypeView)>,
) -> Seq<ProcessView>
    decreases opts,
{
    Seq::new(
        opts.len(),
        |i: int|
            if 0 <= i < opts.len() {
                ProcessView::Send(
                    base_snd_ch + seq!['_'] + opts[i].0,
                    Box::new(encode(party, opts[i].1)),
                )
            } else {
                ProcessView::End
            },
    )
}

/// The branches of a receive: for each label a receive on the channel of
/// that label, which sends on `ord_ch` the process of what follows beside a
/// send of what it got on `opt_ch`.
pub open spec fn recv_branches(
    party: Seq<char>,
    base_snd_ch: Seq<char>,
    ord_ch: Seq<char>,
    opt_ch: Seq<char>,
    opts: Seq<(Seq<char>, LocalTypeView)>,
) -> Seq<ProcessView>
    decreases opts,
{
    Seq::new(
        opts.len(),
        |i: int|
            if 0 <= i < opts.len() {
                ProcessView::Recv(
                    base_snd_ch + seq!['_'] + opts[i].0,
                    "X_"@ + opts[i].0,
                    unused_tag(),
                    Box::new(
                        ProcessView::Send(
                            ord_ch,
                            Box::new(
                                ProcessView::Par(
                                    Box::new(encode(party, opts[i].1)),
                                    Box::new(
                                        ProcessView::Send(
                                            opt_ch,
                                            Box::new(ProcessView::PVar("X_"@ + opts[i].0)),
                                        ),
                                    ),
                                ),
                            ),
                        ),
                    ),
                )
            } else {
                ProcessView::End
            },
    )
}

/// The process that acts out the local type `lt` for the party `party`.
///
/// A send to `q` offers each label on its own channel, each with the
/// process of what follows, beside a receive on the choice channel of the
/// pair that runs what it gets. A receive from `q` has for each label a
/// receive on that label's channel, which sends on the order channel of the
/// pair the process of what follows beside a send of what it got on the
/// choice channel, all beside a process that drains the order channel once
/// for each label. A recursive type has its body beside a replicator on the
/// combine channel of the variable, which feeds the body to the normalise
/// channel of the variable; a recursion variable receives on that channel
/// and runs what it gets.
pub open spec fn encode(party: Seq<char>, lt: LocalTypeView) -> ProcessView
    decreases lt,
{
    match lt {
        LocalTypeView::End => ProcessView::End,
        LocalTypeView::Send(to_party, opts) => {
            let opt_ch = name3("comm_opt_"@, party, to_party);
            let base_snd_ch = name3("comm_snd_"@, party, to_party);
            let receive_choice_branch = ProcessView::Recv(
                opt_ch,
                "C"@,
                unused_tag(),
                Box::new(ProcessView::PVar("C"@)),
            );
            ProcessView::Par(
                Box::new(compose(send_branches(party, base_snd_ch, opts))),
                Box::new(receive_choice_branch),
            )
        },
        LocalTypeView::Recv(from_party, opts) => {
            let opt_ch = name3("comm_opt_"@, from_party, party);
            let base_snd_ch = name3("comm_snd_"@, from_party, party);
            let ord_ch = name3("comm_ord_"@, from_party, party);
            ProcessView::Par(
                Box::new(compose(recv_branches(party, base_snd_ch, ord_ch, opt_ch, opts))),
                Box::new(drain(ord_ch, opts.len())),
            )
        },
        LocalTypeView::RAbs(r_label, t) => {
            let t_enc = encode(party, *t);
            let norm_ch = name3("rec_norm_"@, party, r_label);
            let comb_ch = name3("rec_comb_"@, party, r_label);
            let xvar = "X_"@ + r_label;
            let replica_proc = compose(
                seq![
                    ProcessView::PVar(xvar),
                    ProcessView::Send(comb_ch, Box::new(ProcessView::PVar(xvar))),
                    ProcessView::Send(norm_ch, Box::new(t_enc)),
                ],
            );
            let recv_proc = ProcessView::Recv(comb_ch, xvar, unused_tag(), Box::new(replica_proc));
            let send_proc = ProcessView::Send(comb_ch, Box::new(recv_proc));
            compose(seq![recv_proc, send_proc, t_enc])
        },
        LocalTypeView::RVar(r_label) => {
            let norm_ch = name3("rec_norm_"@, party, r_label);
            let xvar = "X_r_"@ + r_label;
            ProcessView::Recv(norm_ch, xvar, unused_tag(), Box::new(ProcessView::PVar(xvar)))
        },
    }
}

fn make_name3(prefix: &str, a: &String, b: &String) -> (r: String)
    ensures
        r@ == name3(prefix@, a@, b@),
{
    proof {
        reveal_strlit("_");
    }
    let mut s = String::from_str(prefix);
    s.append(a.as_str());
    s.append("_");
    s.append(b.as_str());
    assert(s@ =~= name3(prefix@, a@, b@));
    s
}

fn make_name2(prefix: &str, a: &String) -> (r: String)
    ensures
        r@ == prefix@ + a@,
{
    let mut s = String::from_str(prefix);
    s.append(a.as_str());
    s
}

fn make_label_channel(base: &String, label: &String) -> (r: String)
    ensures
        r@ == base@ + seq!['_'] + label@,
{
    proof {
        reveal_strlit("_");
    }
    let mut s = base.clone();
    s.append("_");
    s.append(label.as_str());
    assert(s@ =~= base@ + seq!['_'] + label@);
    s
}

fn unused_tag_var() -> (r: TagVar)
    ensures
        r@ == unused_tag(),
{
    TagVar(String::from_str("_u_"))
}

/// The view of the labelled types `opts`.
pub open spec fn options_view(opts: Seq<(String, LocalType)>) -> Seq<(Seq<char>, LocalTypeView)> {
    Seq::new(
        opts.len(),
        |i: int|
            if 0 <= i < opts.len() {
                (opts[i].0@, opts[i].1.model())
            } else {
                (Seq::empty(), LocalTypeView::End)
            },
    )
}

fn encode_sends(party: &String, base_snd_ch: &String, opts: &Vec<(String, LocalType)>) -> (r: Vec<
    Process,
>)
    ensures
        r.len() == opts.len(),
        forall|k: int|
            0 <= k < opts.len() ==> (#[trigger] r[k])@ == ProcessView::Send(
                base_snd_ch@ + seq!['_'] + opts@[k].0@,
                Box::new(encode(party@, opts@[k].1@)),
            ),
    decreases opts,
{
    proof {
        reveal_with_fuel(Process::model, 5);
    }
    let mut r: Vec<Process> = Vec::new();
    let mut i: usize = 0;
    while i < opts.len()
        invariant
            i <= opts.len(),
            r.len() == i,
            forall|k: int|
                0 <= k < i ==> (#[trigger] r[k])@ == ProcessView::Send(
                    base_snd_ch@ + seq!['_'] + opts@[k].0@,
                    Box::new(encode(party@, opts@[k].1@)),
                ),
        decreases opts.len() - i,
    {
        let snd_ch = ChName(make_label_channel(base_snd_ch, &opts[i].0));
        proof {
            vstd::std_specs::vec::axiom_vec_index_decreases(*opts, i as int);
        }
        let cont = encode_type(party, &opts[i].1);
        r.push(Process::Send(snd_ch, Box::new(cont)));
        i += 1;
    }
    r
}

fn encode_recvs(
    party: &String,
    base_snd_ch: &String,
    ord_ch: &ChName,
    opt_ch: &ChName,
    opts: &Vec<(String, LocalType)>,
) -> (r: Vec<Process>)
    ensures
        r.len() == opts.len(),
        forall|k: int|
            0 <= k < opts.len() ==> (#[trigger] r[k])@ == ProcessView::Recv(
                base_snd_ch@ + seq!['_'] + opts@[k].0@,
                "X_"@ + opts@[k].0@,
                unused_tag(),
                Box::new(
                    ProcessView::Send(
                        ord_ch@,
                        Box::new(
                            ProcessView::Par(
                                Box::new(encode(party@, opts@[k].1@)),
                                Box::new(
                                    ProcessView::Send(
                                        opt_ch@,
                                        Box::new(ProcessView::PVar("X_"@ + opts@[k].0@)),
                                    ),
                                ),
                            ),
                        ),
                    ),
                ),
            ),
    decreases opts,
{
    proof {
        reveal_with_fuel(Process::model, 5);
    }
    let mut r: Vec<Process> = Vec::new();
    let mut i: usize = 0;
    while i < opts.len()
        invariant
            i <= opts.len(),
            r.len() == i,
            forall|k: int|
                0 <= k < i ==> (#[trigger] r[k])@ == ProcessView::Recv(
                    base_snd_ch@ + seq!['_'] + opts@[k].0@,
                    "X_"@ + opts@[k].0@,
                    unused_tag(),
                    Box::new(
                        ProcessView::Send(
                            ord_ch@,
                            Box::new(
                                ProcessView::Par(
                                    Box::new(encode(party@, opts@[k].1@)),
                                    Box::new(
                                        ProcessView::Send(
                                            opt_ch@,
                                            Box::new(ProcessView::PVar("X_"@ + opts@[k].0@)),
                                        ),
                                    ),
                                ),
                            ),
                        ),
                    ),
                ),
        decreases opts.len() - i,
    {
        let snd_ch = ChName(make_label_channel(base_snd_ch, &opts[i].0));
        let x_var = ProcVar(make_name2("X_", &opts[i].0));
        proof {
            reveal_with_fuel(Process::model, 5);
            vstd::std_specs::vec::axiom_vec_index_decreases(*opts, i as int);
        }
        let cont = encode_type(party, &opts[i].1);
        let recv_cont = Process::Send(
            ord_ch.clone(),
            Box::new(
                Process::Par(
                    Box::new(cont),
                    Box::new(Process::Send(opt_ch.clone(), Box::new(Process::PVar(x_var.clone())))),
                ),
            ),
        );
        r.push(Process::Recv(snd_ch, x_var, unused_tag_var(), Box::new(recv_cont)));
        i += 1;
    }
    r
}

fn make_drain(ord_ch: &ChName, n: usize) -> (r: Process)
    ensures
        r@ == drain(ord_ch@, n as nat),
{
    let drain_var = ProcVar(String::from_str("D"));
    let mut acc = Process::PVar(drain_var.clone());
    let mut i: usize = 0;
    while i < n
        invariant
            i <= n,
            drain_var@ == "D"@,
            acc@ == drain(ord_ch@, i as nat),
        decreases n - i,
    {
        acc = Process::Recv(ord_ch.clone(), drain_var.clone(), unused_tag_var(), Box::new(acc));
        i += 1;
    }
    acc
}

fn encode_type(party: &String, local_type: &LocalType) -> (r: Process)
    ensures
        r@ == encode(party@, local_type@),
    decreases local_type,
{
    proof {
        reveal_with_fuel(Process::model, 5);
    }
    match local_type {
        LocalType::End => Process::End,
        LocalType::Send(to_party, opts) => {
            let opt_ch = ChName(make_name3("comm_opt_", party, to_party));
            let base_snd_ch = make_name3("comm_snd_", party, to_party);
            let choice_var = ProcVar(String::from_str("C"));
            let receive_choice_branch = Process::Recv(
                opt_ch,
                choice_var.clone(),
                unused_tag_var(),
                Box::new(Process::PVar(choice_var)),
            );
            let branches = encode_sends(party, &base_snd_ch, opts);
            proof {
                assert(local_type@->Send_1 =~= options_view(opts@));
                assert(views(branches@) =~= send_branches(
                    party@,
                    base_snd_ch@,
                    options_view(opts@),
                ));
            }
            let send_branch = Process::parallel_compose(branches);
            Process::Par(Box::new(send_branch), Box::new(receive_choice_branch))
        },
        LocalType::Recv(from_party, opts) => {
            let opt_ch = ChName(make_name3("comm_opt_", from_party, party));
            let base_snd_ch = make_name3("comm_snd_", from_party, party);
            let ord_ch = ChName(make_name3("comm_ord_", from_party, party));
            let drain_branch = make_drain(&ord_ch, opts.len());
            let branches = encode_recvs(party, &base_snd_ch, &ord_ch, &opt_ch, opts);
            proof {
                assert(local_type@->Recv_1 =~= options_view(opts@));
                assert(views(branches@) =~= recv_branches(
                    party@,
                    base_snd_ch@,
                    ord_ch@,
                    opt_ch@,
                    options_view(opts@),
                ));
            }
            let recv_branch = Process::parallel_compose(branches);
            Process::Par(Box::new(recv_branch), Box::new(drain_branch))
        },
        LocalType::RAbs(r_label, t) => {
            let t_enc = encode_type(party, t);
            let norm_ch = ChName(make_name3("rec_norm_", party, r_label));
            let comb_ch = ChName(make_name3("rec_comb_", party, r_label));
            let xvar = ProcVar(make_name2("X_", r_label));
            let mut parts: Vec<Process> = Vec::new();
            parts.push(Process::PVar(xvar.clone()));
            parts.push(Process::Send(comb_ch.clone(), Box::new(Process::PVar(xvar.clone()))));
            parts.push(Process::Send(norm_ch, Box::new(t_enc.clone())));
            assert(views(parts@) =~= seq![
                ProcessView::PVar(xvar@),
                ProcessView::Send(comb_ch@, Box::new(ProcessView::PVar(xvar@))),
                ProcessView::Send(norm_ch@, Box::new(t_enc@)),
            ]);
            let replica_proc = Process::parallel_compose(parts);
            let recv_proc = Process::Recv(
                comb_ch.clone(),
                xvar,
                unused_tag_var(),
                Box::new(replica_proc),
            );
            let send_proc = Process::Send(comb_ch, Box::new(recv_proc.clone()));
            let mut all: Vec<Process> = Vec::new();
            let ghost rv = recv_proc@;
            let ghost sv = send_proc@;
            all.push(recv_proc);
            all.push(send_proc);
            all.push(t_enc);
            assert(views(all@) =~= seq![rv, sv, t_enc@]);
            Process::parallel_compose(all)
        },
        LocalType::RVar(r_label) => {
            let norm_ch = ChName(make_name3("rec_norm_", party, r_label));
            let xvar = ProcVar(make_name2("X_r_", r_label));
            Process::Recv(norm_ch, xvar.clone(), unused_tag_var(), Box::new(Process::PVar(xvar)))
        },
    }
}

fn clone_options(opts: &Vec<(String, LocalType)>) -> (r: Vec<(String, LocalType)>)
    ensures
        options_view(r@) == options_view(opts@),
    decreases opts,
{
    let mut r: Vec<(String, LocalType)> = Vec::new();
    let mut i: usize = 0;
    while i < opts.len()
        invariant
            i <= opts.len(),
            r.len() == i,
            forall|k: int|
                0 <= k < i ==> (#[trigger] r[k]).0@ == opts[k].0@ && r[k].1@ == opts[k].1@,
        decreases opts.len() - i,
    {
        proof {
            vstd::std_specs::vec::axiom_vec_index_decreases(*opts, i as int);
        }
        let label = opts[i].0.clone();
        let lt = opts[i].1.clone();
        r.push((label, lt));
        i += 1;
    }
    assert(options_view(r@) =~= options_view(opts@));
    r
}

impl Clone for LocalType {
    fn clone(&self) -> (r: Self)
        ensures
            r@ == self@,
        decreases self,
    {
        match self {
            LocalType::End => LocalType::End,
            LocalType::Send(p, opts) => {
                let c = clone_options(opts);
                assert(self@->Send_1 =~= options_view(opts@));
                let r = LocalType::Send(p.clone(), c);
                assert(r@->Send_1 =~= options_view(c@));
                r
            },
            LocalType::Recv(p, opts) => {
                let c = clone_options(opts);
                assert(self@->Recv_1 =~= options_view(opts@));
                let r = LocalType::Recv(p.clone(), c);
                assert(r@->Recv_1 =~= options_view(c@));
                r
            },
            LocalType::RAbs(v, t) => LocalType::RAbs(v.clone(), Box::new((**t).clone())),
            LocalType::RVar(v) => LocalType::RVar(v.clone()),
        }
    }
}

impl Clone for PartLocalType {
    fn clone(&self) -> (r: Self)
        ensures
            r.party() == self.party(),
            r.local_type() == self.local_type(),
    {
        PartLocalType { party: self.party.clone(), local_type: self.local_type.clone() }
    }
}

impl PartLocalType {
    /// The name of the party.
    pub closed spec fn party(&self) -> Seq<char> {
        self.party@
    }

    /// The local type of the party.
    pub closed spec fn local_type(&self) -> LocalTypeView {
        self.local_type@
    }

    /// The local type `local_type` of the party `party`.
    pub fn new(party: String, local_type: LocalType) -> (r: Self)
        ensures
            r.party() == party@,
            r.local_type() == local_type@,
    {
        PartLocalType { party, local_type }
    }

    /// The name of the party.
    pub fn get_name(&self) -> (r: String)
        ensures
            r@ == self.party(),
    {
        self.party.clone()
    }

    /// The process that acts out the local type for its party.
    pub fn to_process(self) -> (r: Process)
        ensures
            r@ == encode(self.party(), self.local_type()),
    {
        encode_type(&self.party, &self.local_type)
    }
}

} // verus!
