//! Small runs to try the calculus on: each is a list of participants, by
//! id, with the process that each starts with.

use crate::rollpi::syntax::{compose, views, ChName, ProcVar, Process, ProcessView, TagVar};
use vstd::prelude::*;
use vstd::string::StringExecFns;

verus! {

fn name(s: &str) -> (r: ChName)
    ensures
        r@ == s@,
{
    ChName(String::from_str(s))
}

fn pvar(s: &str) -> (r: ProcVar)
    ensures
        r@ == s@,
{
    ProcVar(String::from_str(s))
}

fn tvar(s: &str) -> (r: TagVar)
    ensures
        r@ == s@,
{
    TagVar(String::from_str(s))
}

fn send_end(ch: &str) -> (r: Process)
    ensures
        r@ == send_end_view(ch@),
{
    let end = Process::End;
    assert(end@ == ProcessView::End);
    Process::Send(name(ch), Box::new(end))
}

/// The send of the inert process on `ch`.
pub open spec fn send_end_view(ch: Seq<char>) -> ProcessView {
    ProcessView::Send(ch, Box::new(ProcessView::End))
}

/// What `basic_roll_pi_test` gives to `A`: a send on `a` of a send on `b`.
pub open spec fn basic_test_a() -> ProcessView {
    ProcessView::Send("a"@, Box::new(send_end_view("b"@)))
}

/// What `basic_roll_pi_test` gives to `B`: a receive on `a` that runs what
/// it gets.
pub open spec fn basic_test_b() -> ProcessView {
    ProcessView::Recv("a"@, "pv"@, "tv"@, Box::new(ProcessView::PVar("pv"@)))
}

/// One rendezvous: `A` sends on `a`, and `B` receives it and runs it.
pub fn basic_roll_pi_test() -> (r: Vec<(String, Process)>)
    ensures
        r.len() == 2,
        r[0].0@ == "A"@,
        r[0].1@ == basic_test_a(),
        r[1].0@ == "B"@,
        r[1].1@ == basic_test_b(),
{
    let cont_2 = send_end("b");
    let a = Process::Send(name("a"), Box::new(cont_2));
    let v = Process::PVar(pvar("pv"));
    assert(v@ == ProcessView::PVar("pv"@));
    let b = Process::Recv(name("a"), pvar("pv"), tvar("tv"), Box::new(v));
    let mut r: Vec<(String, Process)> = Vec::new();
    r.push((String::from_str("A"), a));
    r.push((String::from_str("B"), b));
    r
}

/// What `basic_roll_pi_rollback` gives to `B`: a receive on `a` that goes on
/// as a send on `b` beside a receive on `b` that rolls back to the first
/// receive.
pub open spec fn basic_rollback_b() -> ProcessView {
    ProcessView::Recv(
        "a"@,
        "x"@,
        "g"@,
        Box::new(
            ProcessView::Par(
                Box::new(send_end_view("b"@)),
                Box::new(
                    ProcessView::Recv(
                        "b"@,
                        "x"@,
                        "s"@,
                        Box::new(ProcessView::RollV("g"@)),
                    ),
                ),
            ),
        ),
    )
}

/// A rollback: `B` receives from `A`, then from itself, and then rolls
/// back to its first receive.
pub fn basic_roll_pi_rollback() -> (r: Vec<(String, Process)>)
    ensures
        r.len() == 2,
        r[0].0@ == "A"@,
        r[0].1@ == send_end_view("a"@),
        r[1].0@ == "B"@,
        r[1].1@ == basic_rollback_b(),
{
    let a = send_end("a");
    let roll = Process::RollV(tvar("g"));
    assert(roll@ == ProcessView::RollV("g"@));
    let inner = Process::Recv(name("b"), pvar("x"), tvar("s"), Box::new(roll));
    assert(inner@ == ProcessView::Recv("b"@, "x"@, "s"@, Box::new(ProcessView::RollV("g"@))));
    let par = Process::Par(Box::new(send_end("b")), Box::new(inner));
    assert(par@ == ProcessView::Par(
        Box::new(send_end_view("b"@)),
        Box::new(ProcessView::Recv("b"@, "x"@, "s"@, Box::new(ProcessView::RollV("g"@)))),
    ));
    let b = Process::Recv(name("a"), pvar("x"), tvar("g"), Box::new(par));
    let mut r: Vec<(String, Process)> = Vec::new();
    r.push((String::from_str("A"), a));
    r.push((String::from_str("B"), b));
    r
}

/// What `complex_roll_pi_rollback` gives to `B`: a receive on `a` that goes
/// on as a send on `c`, a send on `b`, and two receives on `b` in a row of
/// which the second rolls back to the first receive of all.
pub open spec fn complex_rollback_b() -> ProcessView {
    ProcessView::Recv(
        "a"@,
        "y"@,
        "g"@,
        Box::new(
            compose(
                seq![
                    send_end_view("c"@),
                    send_end_view("b"@),
                    ProcessView::Recv(
                        "b"@,
                        "y"@,
                        "u"@,
                        Box::new(
                            ProcessView::Recv(
                                "b"@,
                                "y"@,
                                "u"@,
                                Box::new(ProcessView::RollV("g"@)),
                            ),
                        ),
                    ),
                ],
            ),
        ),
    )
}

/// What `complex_roll_pi_rollback` gives to `C`: a receive on `c` that goes
/// on as a send on `b`.
pub open spec fn complex_rollback_c() -> ProcessView {
    ProcessView::Recv("c"@, "z"@, "u"@, Box::new(send_end_view("b"@)))
}

/// A rollback that undoes the work of a third participant.
pub fn complex_roll_pi_rollback() -> (r: Vec<(String, Process)>)
    ensures
        r.len() == 3,
        r[0].0@ == "A"@,
        r[0].1@ == send_end_view("a"@),
        r[1].0@ == "B"@,
        r[1].1@ == complex_rollback_b(),
        r[2].0@ == "C"@,
        r[2].1@ == complex_rollback_c(),
{
    let party_a = send_end("a");
    let roll_g = Process::RollV(tvar("g"));
    assert(roll_g@ == ProcessView::RollV("g"@));
    let inner = Process::Recv(name("b"), pvar("y"), tvar("u"), Box::new(roll_g));
    assert(inner@ == ProcessView::Recv("b"@, "y"@, "u"@, Box::new(ProcessView::RollV("g"@))));
    let outer = Process::Recv(name("b"), pvar("y"), tvar("u"), Box::new(inner));
    let ghost outer_view = outer@;
    let mut parts: Vec<Process> = Vec::new();
    parts.push(send_end("c"));
    parts.push(send_end("b"));
    parts.push(outer);
    assert(views(parts@) =~= seq![
        send_end_view("c"@),
        send_end_view("b"@),
        outer_view,
    ]);
    let party_b = Process::Recv(
        name("a"),
        pvar("y"),
        tvar("g"),
        Box::new(Process::parallel_compose(parts)),
    );
    let party_c = Process::Recv(name("c"), pvar("z"), tvar("u"), Box::new(send_end("b")));
    let mut r: Vec<(String, Process)> = Vec::new();
    r.push((String::from_str("A"), party_a));
    r.push((String::from_str("B"), party_b));
    r.push((String::from_str("C"), party_c));
    r
}

} // verus!
