use crossbeam::channel::bounded;
use pi_calculus::rollpi::environment::entities::history::HistoryParticipant;
use pi_calculus::rollpi::environment::entities::party::{Pace, Participant};
use pi_calculus::rollpi::environment::generator::Generator;
use pi_calculus::rollpi::syntax::{
    check_initial_conf_list, ChName, PrimProcess, ProcTag, ProcVar, Process, TagKey, TagVar,
    TaggedPrimProc,
};
use pi_calculus::scenarios::roll_pi::basic_roll_pi_test;
use std::time::{Duration, Instant};

fn key(s: &str) -> TagKey {
    TagKey(s.to_string())
}

fn ktag(s: &str) -> ProcTag {
    ProcTag::PTKey(key(s))
}

fn frag(f: &str, n: i32, orig: &str) -> ProcTag {
    ProcTag::PTSplit(key(f), n, key(orig))
}

fn generate(conf: Vec<(String, Process)>) -> (Vec<Participant>, HistoryParticipant) {
    let mut generator = Generator::new();
    for (id, p) in conf {
        let state = p.to_tagged_process(ktag(&id)).to_prime_state();
        assert!(generator.take_participant_conf(state, Some(id), None));
    }
    generator.generate_participants()
}

/// Runs the history on a thread of its own while `drive` steps the
/// participants, and hands the history back.
fn with_history<F>(mut hist: HistoryParticipant, drive: F) -> HistoryParticipant
where
    F: FnOnce(),
{
    let (stop_tx, stop_rx) = bounded::<()>(1);
    crossbeam::scope(|s| {
        let h = s.spawn(move |_| {
            loop {
                hist.step().unwrap();
                if stop_rx.try_recv().is_ok() {
                    break;
                }
            }
            hist.step().unwrap();
            hist
        });
        drive();
        stop_tx.send(()).unwrap();
        h.join().unwrap()
    })
    .unwrap()
}

#[test]
fn a_generated_run_confirms_a_rendezvous() {
    let conf = basic_roll_pi_test();
    let procs: Vec<Process> = conf.iter().map(|(_, p)| p.clone()).collect();
    assert!(check_initial_conf_list(&procs));
    let (mut parties, hist) = generate(conf);
    let hist = with_history(hist, || {
        let (a, b) = parties.split_at_mut(1);
        assert_eq!(a[0].step().map(|r| r.pace), Ok(Pace::Throttle));
        // the receive waits until the history has confirmed its key
        assert_eq!(b[0].step().map(|r| r.pace), Ok(Pace::Proceed));
    });
    assert!(parties[0].get_state().live_state.is_empty());
    assert_eq!(
        parties[1].get_state().live_state,
        vec![TaggedPrimProc {
            tag: frag("sp_0__tag_B_0", 1, "_tag_B_0"),
            proc: PrimProcess::Send(ChName("b".to_string()), Process::End),
        }]
    );
    let graph = hist.get_graph();
    assert_eq!(graph.owner_of(&ktag("_tag_B_0")), Some("B".to_string()));
    assert_eq!(graph.owner_of(&frag("sp_0_A", 1, "A")), Some("A".to_string()));
    assert_eq!(
        graph.successor_of(&frag("sp_0_B", 1, "B")),
        Some(ktag("_tag_B_0"))
    );
    assert!(!graph.is_frozen(&ktag("_tag_B_0")));
}

#[test]
fn a_generated_run_freezes_what_followed_a_rollback() {
    let a_term = Process::Send(ChName("a".to_string()), Box::new(Process::End));
    let b_term = Process::Recv(
        ChName("a".to_string()),
        ProcVar("x".to_string()),
        TagVar("g".to_string()),
        Box::new(Process::Par(
            Box::new(Process::Send(ChName("b".to_string()), Box::new(Process::End))),
            Box::new(Process::Recv(
                ChName("b".to_string()),
                ProcVar("y".to_string()),
                TagVar("s".to_string()),
                Box::new(Process::RollV(TagVar("g".to_string()))),
            )),
        )),
    );
    assert!(check_initial_conf_list(&vec![a_term.clone(), b_term.clone()]));
    let (mut parties, hist) = generate(vec![
        ("A".to_string(), a_term),
        ("B".to_string(), b_term),
    ]);
    let mut frozen_at_b = false;
    let hist = with_history(hist, || {
        let (a, b) = parties.split_at_mut(1);
        let (a, b) = (&mut a[0], &mut b[0]);
        a.step().unwrap();
        b.step().unwrap();
        b.step().unwrap();
        b.step().unwrap();
        // the rollback to the first step is asked for
        b.step().unwrap();
        let deadline = Instant::now() + Duration::from_secs(15);
        while !frozen_at_b && Instant::now() < deadline {
            b.step().unwrap();
            frozen_at_b = b.get_state().is_frozen(&ktag("_tag_B_0"))
                && b.get_state().is_frozen(&ktag("_tag_B_1"));
        }
    });
    // both steps are condemned, at the history and at their owner
    assert!(frozen_at_b);
    let graph = hist.get_graph();
    assert!(graph.is_frozen(&ktag("_tag_B_0")));
    assert!(graph.is_frozen(&ktag("_tag_B_1")));
    assert!(graph.is_frozen(&frag("sp_0__tag_B_0", 2, "_tag_B_0")));
    assert!(graph.is_frozen(&frag("sp_1__tag_B_0", 2, "_tag_B_0")));
    assert!(!graph.is_frozen(&frag("sp_0_A", 1, "A")));
    // the unit that asked for the rollback was never condemned itself
    assert_eq!(
        parties[1].get_state().dead_state,
        vec![TaggedPrimProc {
            tag: frag("sp_0__tag_B_1", 1, "_tag_B_1"),
            proc: PrimProcess::RollK(key("_tag_B_0")),
        }]
    );
}
