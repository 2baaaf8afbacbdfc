use pi_calculus::rollpi::local_types::{LocalType, PartLocalType};
use pi_calculus::rollpi::syntax::{ChName, ProcVar, Process, TagVar};

fn ch(s: &str) -> ChName {
    ChName(s.to_string())
}

fn pv(s: &str) -> ProcVar {
    ProcVar(s.to_string())
}

fn u() -> TagVar {
    TagVar("_u_".to_string())
}

fn send(c: &str, p: Process) -> Process {
    Process::Send(ch(c), Box::new(p))
}

fn recv(c: &str, x: &str, next: Process) -> Process {
    Process::Recv(ch(c), pv(x), u(), Box::new(next))
}

fn par(a: Process, b: Process) -> Process {
    Process::Par(Box::new(a), Box::new(b))
}

fn var(x: &str) -> Process {
    Process::PVar(pv(x))
}

fn encode(party: &str, lt: LocalType) -> Process {
    PartLocalType::new(party.to_string(), lt).to_process()
}

#[test]
fn name_of_the_party() {
    let p = PartLocalType::new("A".to_string(), LocalType::End);
    assert_eq!(p.get_name(), "A");
    assert_eq!(p.clone().get_name(), "A");
}

#[test]
fn end_is_the_inert_process() {
    assert_eq!(encode("A", LocalType::End), Process::End);
}

#[test]
fn recursion_variable() {
    assert_eq!(
        encode("A", LocalType::RVar("t".to_string())),
        recv("rec_norm_A_t", "X_r_t", var("X_r_t"))
    );
}

#[test]
fn send_offers_each_label() {
    let lt = LocalType::Send(
        "B".to_string(),
        vec![
            ("l1".to_string(), LocalType::End),
            ("l2".to_string(), LocalType::RVar("t".to_string())),
        ],
    );
    assert_eq!(
        encode("A", lt),
        par(
            par(
                send("comm_snd_A_B_l1", Process::End),
                send(
                    "comm_snd_A_B_l2",
                    recv("rec_norm_A_t", "X_r_t", var("X_r_t"))
                )
            ),
            recv("comm_opt_A_B", "C", var("C"))
        )
    );
}

#[test]
fn send_without_labels() {
    assert_eq!(
        encode("A", LocalType::Send("B".to_string(), vec![])),
        par(Process::End, recv("comm_opt_A_B", "C", var("C")))
    );
}

#[test]
fn receive_takes_each_label_and_drains_the_order_channel() {
    let lt = LocalType::Recv(
        "A".to_string(),
        vec![
            ("l1".to_string(), LocalType::End),
            ("l2".to_string(), LocalType::End),
        ],
    );
    let branch = |label: &str| {
        recv(
            &format!("comm_snd_A_B_{}", label),
            &format!("X_{}", label),
            send(
                "comm_ord_A_B",
                par(
                    Process::End,
                    send("comm_opt_A_B", var(&format!("X_{}", label))),
                ),
            ),
        )
    };
    assert_eq!(
        encode("B", lt),
        par(
            par(branch("l1"), branch("l2")),
            recv("comm_ord_A_B", "D", recv("comm_ord_A_B", "D", var("D")))
        )
    );
}

#[test]
fn recursion_runs_its_body_beside_a_replicator() {
    let lt = LocalType::RAbs("t".to_string(), Box::new(LocalType::End));
    let replica = par(
        var("X_t"),
        par(
            send("rec_comb_A_t", var("X_t")),
            send("rec_norm_A_t", Process::End),
        ),
    );
    let recv_proc = recv("rec_comb_A_t", "X_t", replica);
    let send_proc = send("rec_comb_A_t", recv_proc.clone());
    assert_eq!(
        encode("A", lt),
        par(recv_proc, par(send_proc, Process::End))
    );
}

#[test]
fn clone_keeps_the_type() {
    let lt = LocalType::RAbs(
        "t".to_string(),
        Box::new(LocalType::Send(
            "B".to_string(),
            vec![(
                "l".to_string(),
                LocalType::Recv(
                    "B".to_string(),
                    vec![("m".to_string(), LocalType::RVar("t".to_string()))],
                ),
            )],
        )),
    );
    let p = PartLocalType::new("A".to_string(), lt);
    assert_eq!(p.clone().to_process(), p.to_process());
}
