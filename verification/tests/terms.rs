use pi_calculus::rollpi::syntax::{
    all_chn_names_proc, all_chn_names_state, check_all_pvar_closed, check_all_tvar_closed,
    check_initial_conf, check_initial_conf_list, check_unique_pvar_tvar, make_fragment_key,
    validate_initial_conf, validate_initial_conf_list, ChName, ConfError, PrimProcess, ProcTag,
    ProcVar, Process, TagKey, TagVar, TaggedPrimProc, TaggedProc,
};
use pi_calculus::scenarios::roll_pi::{
    basic_roll_pi_rollback, basic_roll_pi_test, complex_roll_pi_rollback,
};

fn ch(s: &str) -> ChName {
    ChName(s.to_string())
}

fn pv(s: &str) -> ProcVar {
    ProcVar(s.to_string())
}

fn tv(s: &str) -> TagVar {
    TagVar(s.to_string())
}

fn key(s: &str) -> TagKey {
    TagKey(s.to_string())
}

fn send(c: &str, p: Process) -> Process {
    Process::Send(ch(c), Box::new(p))
}

fn recv(c: &str, p: &str, t: &str, next: Process) -> Process {
    Process::Recv(ch(c), pv(p), tv(t), Box::new(next))
}

fn par(a: Process, b: Process) -> Process {
    Process::Par(Box::new(a), Box::new(b))
}

fn sorted(mut v: Vec<String>) -> Vec<String> {
    v.sort();
    v
}

#[test]
fn parallel_compose_nests_to_the_right() {
    assert_eq!(Process::parallel_compose(vec![]), Process::End);
    assert_eq!(
        Process::parallel_compose(vec![send("a", Process::End)]),
        send("a", Process::End)
    );
    assert_eq!(
        Process::parallel_compose(vec![
            send("a", Process::End),
            send("b", Process::End),
            send("c", Process::End),
        ]),
        par(
            send("a", Process::End),
            par(send("b", Process::End), send("c", Process::End))
        )
    );
}

#[test]
fn flatten_gives_the_components_from_left_to_right() {
    let p = par(
        par(send("a", Process::End), Process::End),
        par(Process::RollK(key("k")), recv("b", "x", "t", Process::End)),
    );
    assert_eq!(
        p.get_first_order_par_processes(),
        vec![
            send("a", Process::End),
            Process::End,
            Process::RollK(key("k")),
            recv("b", "x", "t", Process::End),
        ]
    );
    assert_eq!(Process::End.get_first_order_par_processes(), vec![Process::End]);
}

#[test]
fn flatten_undoes_compose() {
    let parts = vec![
        send("a", Process::End),
        Process::End,
        recv("b", "x", "t", Process::PVar(pv("x"))),
    ];
    let composed = Process::parallel_compose(parts.clone());
    assert_eq!(composed.get_first_order_par_processes(), parts);
}

#[test]
fn prime_process_of_each_prime_term() {
    assert!(matches!(Process::End.to_prime_process(), PrimProcess::End));
    match send("a", Process::End).to_prime_process() {
        PrimProcess::Send(c, p) => {
            assert_eq!(c, ch("a"));
            assert_eq!(p, Process::End);
        }
        other => panic!("unexpected {:?}", other),
    }
    match recv("a", "x", "t", Process::PVar(pv("x"))).to_prime_process() {
        PrimProcess::Recv(c, x, t, p) => {
            assert_eq!(c, ch("a"));
            assert_eq!(x, pv("x"));
            assert_eq!(t, tv("t"));
            assert_eq!(p, Process::PVar(pv("x")));
        }
        other => panic!("unexpected {:?}", other),
    }
    match Process::RollK(key("k")).to_prime_process() {
        PrimProcess::RollK(k) => assert_eq!(k, key("k")),
        other => panic!("unexpected {:?}", other),
    }
    assert!(Process::End.is_prime());
    assert!(!Process::PVar(pv("x")).is_prime());
    assert!(!Process::RollV(tv("t")).is_prime());
    assert!(!par(Process::End, Process::End).is_prime());
}

#[test]
fn prime_process_back_to_process() {
    assert_eq!(PrimProcess::End.to_process(), Process::End);
    assert_eq!(
        PrimProcess::Send(ch("a"), Process::End).to_process(),
        send("a", Process::End)
    );
    assert_eq!(
        PrimProcess::Recv(ch("a"), pv("x"), tv("t"), Process::End).to_process(),
        recv("a", "x", "t", Process::End)
    );
    assert_eq!(
        PrimProcess::RollK(key("k")).to_process(),
        Process::RollK(key("k"))
    );
}

#[test]
fn fragment_keys() {
    assert_eq!(make_fragment_key(0, &key("A")), key("sp_0_A"));
    assert_eq!(make_fragment_key(12, &key("_tag_B_3")), key("sp_12__tag_B_3"));
}

#[test]
fn prime_state_tags_each_fragment() {
    let tagged = par(send("a", Process::End), par(Process::End, Process::RollK(key("k"))))
        .to_tagged_process(ProcTag::PTKey(key("A")));
    assert!(tagged.splits());
    let state = tagged.to_prime_state();
    assert_eq!(state.len(), 3);
    assert_eq!(state[0].tag, ProcTag::PTSplit(key("sp_0_A"), 3, key("A")));
    assert_eq!(state[1].tag, ProcTag::PTSplit(key("sp_1_A"), 3, key("A")));
    assert_eq!(state[2].tag, ProcTag::PTSplit(key("sp_2_A"), 3, key("A")));
    assert!(matches!(state[0].proc, PrimProcess::Send(_, _)));
    assert!(matches!(state[1].proc, PrimProcess::End));
    assert!(matches!(state[2].proc, PrimProcess::RollK(_)));
}

#[test]
fn prime_state_of_a_fragment_uses_the_fragment_key() {
    let tagged = TaggedProc {
        tag: ProcTag::PTSplit(key("sp_1_A"), 2, key("A")),
        proc: Process::End,
    };
    let state = tagged.to_prime_state();
    assert_eq!(state.len(), 1);
    assert_eq!(
        state[0].tag,
        ProcTag::PTSplit(key("sp_0_sp_1_A"), 1, key("sp_1_A"))
    );
}

#[test]
fn a_variable_at_top_level_does_not_split() {
    let tagged = par(Process::End, Process::PVar(pv("x"))).to_tagged_process(ProcTag::PTKey(key("A")));
    assert!(!tagged.splits());
    let tagged = Process::RollV(tv("t")).to_tagged_process(ProcTag::PTKey(key("A")));
    assert!(!tagged.splits());
}

#[test]
fn channel_names_of_a_process() {
    let p = par(
        send("a", recv("b", "x", "t", Process::End)),
        send("a", send("c", Process::PVar(pv("d")))),
    );
    assert_eq!(
        sorted(all_chn_names_proc(&p)),
        vec!["a".to_string(), "b".to_string(), "c".to_string()]
    );
    assert_eq!(all_chn_names_proc(&Process::End), Vec::<String>::new());
}

#[test]
fn channel_names_of_a_state() {
    let state = vec![
        TaggedPrimProc {
            tag: ProcTag::PTKey(key("k1")),
            proc: PrimProcess::Send(ch("a"), send("b", Process::End)),
        },
        TaggedPrimProc {
            tag: ProcTag::PTKey(key("k2")),
            proc: PrimProcess::Recv(ch("b"), pv("x"), tv("t"), send("c", Process::End)),
        },
        TaggedPrimProc {
            tag: ProcTag::PTKey(key("k3")),
            proc: PrimProcess::End,
        },
    ];
    assert_eq!(
        sorted(all_chn_names_state(&state)),
        vec!["a".to_string(), "b".to_string(), "c".to_string()]
    );
}

#[test]
fn closedness_of_process_variables() {
    assert!(check_all_pvar_closed(&Process::End));
    assert!(check_all_pvar_closed(&recv("a", "x", "t", Process::PVar(pv("x")))));
    assert!(!check_all_pvar_closed(&Process::PVar(pv("x"))));
    assert!(!check_all_pvar_closed(&recv("a", "x", "t", Process::PVar(pv("y")))));
    // a binder holds for its continuation only, not for what runs beside it
    assert!(!check_all_pvar_closed(&par(
        recv("a", "x", "t", Process::End),
        Process::PVar(pv("x"))
    )));
    assert!(!check_all_pvar_closed(&par(
        Process::PVar(pv("x")),
        recv("a", "x", "t", Process::End)
    )));
    assert!(check_all_pvar_closed(&recv(
        "a",
        "x",
        "t",
        par(Process::PVar(pv("x")), send("b", Process::PVar(pv("x"))))
    )));
}

#[test]
fn closedness_of_tag_variables() {
    assert!(check_all_tvar_closed(&Process::End));
    assert!(check_all_tvar_closed(&recv("a", "x", "t", Process::RollV(tv("t")))));
    assert!(!check_all_tvar_closed(&Process::RollV(tv("t"))));
    assert!(!check_all_tvar_closed(&recv("a", "x", "t", Process::RollV(tv("u")))));
    // a rollback to a key cannot stand in an initial configuration
    assert!(!check_all_tvar_closed(&Process::RollK(key("k"))));
    assert!(!check_all_tvar_closed(&par(
        recv("a", "x", "t", Process::End),
        Process::RollV(tv("t"))
    )));
}

#[test]
fn uniqueness_of_bound_variables() {
    assert!(check_unique_pvar_tvar(&Process::End));
    assert!(check_unique_pvar_tvar(&recv("a", "x", "t", recv("b", "y", "u", Process::End))));
    assert!(!check_unique_pvar_tvar(&recv("a", "x", "t", recv("b", "x", "u", Process::End))));
    assert!(!check_unique_pvar_tvar(&recv("a", "x", "t", recv("b", "y", "t", Process::End))));
    // nor may two receives that run beside each other bind the same name
    assert!(!check_unique_pvar_tvar(&par(
        recv("a", "x", "t", Process::End),
        recv("b", "x", "u", Process::End)
    )));
    assert!(!check_unique_pvar_tvar(&par(
        recv("a", "x", "t", Process::End),
        send("c", recv("b", "y", "t", Process::End))
    )));
    assert!(check_unique_pvar_tvar(&par(
        recv("a", "x", "t", Process::End),
        recv("b", "y", "u", Process::End)
    )));
    // a process variable and a tag variable may share a name
    assert!(check_unique_pvar_tvar(&recv("a", "x", "x", Process::End)));
}

#[test]
fn initial_configuration_rejects_each_malformed_term() {
    // a free process variable
    assert!(!check_initial_conf(&send("a", Process::PVar(pv("p")))));
    // a free tag variable
    assert!(!check_initial_conf(&send("a", Process::RollV(tv("g")))));
    // a variable bound twice
    assert!(!check_initial_conf(&recv(
        "a",
        "x",
        "t",
        recv("b", "x", "u", Process::PVar(pv("x")))
    )));
    // a well-formed term
    assert!(check_initial_conf(&recv(
        "a",
        "x",
        "t",
        par(Process::PVar(pv("x")), Process::RollV(tv("t")))
    )));
}

#[test]
fn initial_configuration_list() {
    assert!(check_initial_conf_list(&vec![]));
    assert!(check_initial_conf_list(&vec![
        send("a", Process::End),
        recv("a", "x", "t", Process::PVar(pv("x"))),
    ]));
    assert!(!check_initial_conf_list(&vec![
        send("a", Process::End),
        Process::PVar(pv("x")),
    ]));
}

#[test]
fn scenario_basic_test() {
    let conf = basic_roll_pi_test();
    assert_eq!(conf.len(), 2);
    assert_eq!(conf[0].0, "A");
    assert_eq!(conf[0].1, send("a", send("b", Process::End)));
    assert_eq!(conf[1].0, "B");
    assert_eq!(conf[1].1, recv("a", "pv", "tv", Process::PVar(pv("pv"))));
    assert!(check_initial_conf(&conf[0].1));
    assert!(check_initial_conf(&conf[1].1));
}

#[test]
fn scenario_basic_rollback() {
    let conf = basic_roll_pi_rollback();
    assert_eq!(conf.len(), 2);
    assert_eq!(conf[0].0, "A");
    assert_eq!(conf[0].1, send("a", Process::End));
    assert_eq!(conf[1].0, "B");
    assert_eq!(
        conf[1].1,
        recv(
            "a",
            "x",
            "g",
            par(
                send("b", Process::End),
                recv("b", "x", "s", Process::RollV(tv("g")))
            )
        )
    );
    // closed, but it binds `x` twice
    assert!(check_all_pvar_closed(&conf[1].1));
    assert!(check_all_tvar_closed(&conf[1].1));
    assert!(!check_unique_pvar_tvar(&conf[1].1));
}

#[test]
fn scenario_complex_rollback() {
    let conf = complex_roll_pi_rollback();
    assert_eq!(conf.len(), 3);
    assert_eq!(conf[0].0, "A");
    assert_eq!(conf[0].1, send("a", Process::End));
    assert_eq!(conf[1].0, "B");
    assert_eq!(
        conf[1].1,
        recv(
            "a",
            "y",
            "g",
            par(
                send("c", Process::End),
                par(
                    send("b", Process::End),
                    recv(
                        "b",
                        "y",
                        "u",
                        recv("b", "y", "u", Process::RollV(tv("g")))
                    )
                )
            )
        )
    );
    assert_eq!(conf[2].0, "C");
    assert_eq!(conf[2].1, recv("c", "z", "u", send("b", Process::End)));
}

#[test]
fn substitution_replaces_free_occurrences() {
    let cont = par(
        Process::PVar(pv("x")),
        send("a", par(Process::RollV(tv("t")), Process::PVar(pv("y")))),
    );
    let got = cont.substitution_on_trigger(pv("x"), &send("m", Process::End), tv("t"), &key("k"));
    assert_eq!(
        got,
        par(
            send("m", Process::End),
            send("a", par(Process::RollK(key("k")), Process::PVar(pv("y"))))
        )
    );
}

#[test]
fn substitution_stops_at_a_binder_of_the_same_name() {
    // the inner receive binds `x` again: its `x` is its own
    let cont = recv(
        "a",
        "x",
        "u",
        par(Process::PVar(pv("x")), Process::RollV(tv("t"))),
    );
    let got = cont.substitution_on_trigger(pv("x"), &Process::End, tv("t"), &key("k"));
    assert_eq!(
        got,
        recv(
            "a",
            "x",
            "u",
            par(Process::PVar(pv("x")), Process::RollK(key("k")))
        )
    );
    // the inner receive binds `t` again: its `t` is its own
    let cont = recv(
        "a",
        "y",
        "t",
        par(Process::PVar(pv("x")), Process::RollV(tv("t"))),
    );
    let got = cont.substitution_on_trigger(pv("x"), &Process::End, tv("t"), &key("k"));
    assert_eq!(
        got,
        recv("a", "y", "t", par(Process::End, Process::RollV(tv("t"))))
    );
    // both bound again: nothing changes
    let cont = recv(
        "a",
        "x",
        "t",
        par(Process::PVar(pv("x")), Process::RollV(tv("t"))),
    );
    let got = cont
        .clone()
        .substitution_on_trigger(pv("x"), &Process::End, tv("t"), &key("k"));
    assert_eq!(got, cont);
}

#[test]
fn substitution_leaves_keys_alone() {
    let got = Process::RollK(key("j")).substitution_on_trigger(
        pv("x"),
        &Process::End,
        tv("t"),
        &key("k"),
    );
    assert_eq!(got, Process::RollK(key("j")));
}

#[test]
fn validation_names_the_check_that_fails() {
    assert_eq!(validate_initial_conf(&send("a", Process::End)), Ok(()));
    assert_eq!(
        validate_initial_conf(&Process::PVar(pv("x"))),
        Err(ConfError::OpenProcessVariable)
    );
    assert_eq!(
        validate_initial_conf(&Process::RollV(tv("t"))),
        Err(ConfError::OpenTagVariable)
    );
    assert_eq!(
        validate_initial_conf(&Process::RollK(key("k"))),
        Err(ConfError::OpenTagVariable)
    );
    assert_eq!(
        validate_initial_conf(&recv("a", "x", "t", recv("b", "x", "u", Process::End))),
        Err(ConfError::DuplicateBinding)
    );
    // the first check that fails is named
    assert_eq!(
        validate_initial_conf(&par(Process::RollV(tv("t")), Process::PVar(pv("x")))),
        Err(ConfError::OpenProcessVariable)
    );
}

#[test]
fn validation_of_a_batch_names_the_first_process_refused() {
    assert_eq!(validate_initial_conf_list(&vec![]), Ok(()));
    assert_eq!(
        validate_initial_conf_list(&vec![
            send("a", Process::End),
            Process::RollV(tv("t")),
            Process::PVar(pv("x")),
        ]),
        Err((1, ConfError::OpenTagVariable))
    );
}
