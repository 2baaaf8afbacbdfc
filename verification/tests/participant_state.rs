use pi_calculus::rollpi::environment::components::actions::finish_receive;
use pi_calculus::rollpi::environment::entities::participant::{
    remove_tag, tags_contain, ParticipantState, PrimProcTransf, RessurectMsg,
};
use pi_calculus::rollpi::environment::types::ProtocolError;
use pi_calculus::rollpi::syntax::{
    ChName, PrimProcess, ProcTag, ProcVar, Process, TagKey, TagVar, TaggedPrimProc, TaggedProc,
};

fn key(s: &str) -> TagKey {
    TagKey(s.to_string())
}

fn ktag(s: &str) -> ProcTag {
    ProcTag::PTKey(key(s))
}

fn frag(f: &str, n: i32, orig: &str) -> ProcTag {
    ProcTag::PTSplit(key(f), n, key(orig))
}

fn unit(tag: ProcTag, proc: PrimProcess) -> TaggedPrimProc {
    TaggedPrimProc { tag, proc }
}

fn send_unit(tag: ProcTag, ch: &str) -> TaggedPrimProc {
    unit(tag, PrimProcess::Send(ChName(ch.to_string()), Process::End))
}

fn end_unit(tag: ProcTag) -> TaggedPrimProc {
    unit(tag, PrimProcess::End)
}

fn state(live: Vec<TaggedPrimProc>, dead: Vec<TaggedPrimProc>, frozen: Vec<ProcTag>) -> ParticipantState {
    ParticipantState {
        live_state: live,
        dead_state: dead,
        frozen_tags: frozen,
    }
}

#[test]
fn new_state_has_nothing_dead_or_frozen() {
    let s = ParticipantState::new(vec![end_unit(ktag("a"))]);
    assert_eq!(s.live_state, vec![end_unit(ktag("a"))]);
    assert!(s.dead_state.is_empty());
    assert!(s.frozen_tags.is_empty());
}

#[test]
fn freeze_condemns_a_tag_once() {
    let mut s = ParticipantState::new(vec![]);
    assert!(!s.is_frozen(&ktag("a")));
    s.freeze(ktag("a"));
    s.freeze(ktag("a"));
    s.freeze(frag("f", 2, "a"));
    assert!(s.is_frozen(&ktag("a")));
    assert!(s.is_frozen(&frag("f", 2, "a")));
    assert!(!s.is_frozen(&frag("f", 3, "a")));
    assert!(!s.is_frozen(&ktag("f")));
    assert_eq!(s.frozen_tags.len(), 2);
}

#[test]
fn freeze_all_condemns_every_tag() {
    let mut s = state(vec![], vec![], vec![ktag("a")]);
    s.freeze_all(&vec![ktag("b"), ktag("a"), ktag("c")]);
    assert!(s.is_frozen(&ktag("a")));
    assert!(s.is_frozen(&ktag("b")));
    assert!(s.is_frozen(&ktag("c")));
    assert!(!s.is_frozen(&ktag("d")));
}

#[test]
fn tag_list_helpers() {
    let mut tags = vec![ktag("a"), ktag("b"), ktag("a"), frag("a", 1, "b")];
    assert!(tags_contain(&tags, &ktag("a")));
    assert!(!tags_contain(&tags, &ktag("c")));
    remove_tag(&mut tags, &ktag("a"));
    assert_eq!(tags, vec![ktag("b"), frag("a", 1, "b")]);
    remove_tag(&mut tags, &ktag("zzz"));
    assert_eq!(tags, vec![ktag("b"), frag("a", 1, "b")]);
}

#[test]
fn apply_removes_the_unit_and_appends_what_follows() {
    let mut s = state(
        vec![send_unit(ktag("a"), "x"), send_unit(ktag("b"), "y"), end_unit(ktag("c"))],
        vec![],
        vec![],
    );
    s.apply(PrimProcTransf(1, vec![end_unit(ktag("n1")), end_unit(ktag("n2"))]));
    assert_eq!(
        s.live_state,
        vec![
            send_unit(ktag("a"), "x"),
            end_unit(ktag("c")),
            end_unit(ktag("n1")),
            end_unit(ktag("n2")),
        ]
    );
    // a send is not kept among the dead
    assert!(s.dead_state.is_empty());
}

#[test]
fn apply_keeps_ends_and_rollbacks_among_the_dead() {
    let mut s = state(
        vec![
            end_unit(ktag("a")),
            unit(ktag("b"), PrimProcess::RollK(key("k"))),
            unit(
                ktag("c"),
                PrimProcess::Recv(
                    ChName("x".to_string()),
                    ProcVar("p".to_string()),
                    TagVar("t".to_string()),
                    Process::End,
                ),
            ),
        ],
        vec![],
        vec![],
    );
    s.apply(PrimProcTransf(0, vec![]));
    s.apply(PrimProcTransf(0, vec![]));
    s.apply(PrimProcTransf(0, vec![]));
    assert!(s.live_state.is_empty());
    assert_eq!(
        s.dead_state,
        vec![
            end_unit(ktag("a")),
            unit(ktag("b"), PrimProcess::RollK(key("k")))
        ]
    );
}

#[test]
fn disappear_drops_condemned_atomic_tags() {
    let mut s = state(
        vec![send_unit(ktag("a"), "x"), send_unit(ktag("b"), "y")],
        vec![end_unit(ktag("c")), end_unit(ktag("d"))],
        vec![ktag("c"), ktag("a"), ktag("other")],
    );
    let reports = s.disappear();
    // live units are swept before dead ones
    assert_eq!(reports, vec![ktag("a"), ktag("c")]);
    assert_eq!(s.live_state, vec![send_unit(ktag("b"), "y")]);
    assert_eq!(s.dead_state, vec![end_unit(ktag("d"))]);
    // what was reported is condemned no more
    assert_eq!(s.frozen_tags, vec![ktag("other")]);
}

#[test]
fn disappear_without_anything_condemned_changes_nothing() {
    let mut s = state(
        vec![send_unit(ktag("a"), "x"), send_unit(frag("f0", 1, "o"), "y")],
        vec![end_unit(ktag("c"))],
        vec![],
    );
    assert!(s.disappear().is_empty());
    assert_eq!(s.live_state.len(), 2);
    assert_eq!(s.dead_state.len(), 1);
}

#[test]
fn disappear_refuses_a_family_that_is_not_whole() {
    // two of three fragments are at hand, both condemned
    let mut s = state(
        vec![send_unit(frag("f0", 3, "o"), "x")],
        vec![end_unit(frag("f1", 3, "o"))],
        vec![ktag("o"), frag("f0", 3, "o"), frag("f1", 3, "o")],
    );
    let reports = s.disappear();
    assert!(reports.is_empty());
    assert_eq!(s.live_state, vec![send_unit(frag("f0", 3, "o"), "x")]);
    assert_eq!(s.dead_state, vec![end_unit(frag("f1", 3, "o"))]);
    assert!(s.is_frozen(&ktag("o")));
    assert!(s.is_frozen(&frag("f0", 3, "o")));
    assert!(s.is_frozen(&frag("f1", 3, "o")));
}

#[test]
fn disappear_retires_a_whole_family_as_one() {
    let mut s = state(
        vec![
            send_unit(frag("f0", 3, "o"), "x"),
            send_unit(ktag("keep"), "z"),
            send_unit(frag("f2", 3, "o"), "y"),
        ],
        vec![end_unit(frag("f1", 3, "o")), end_unit(frag("g0", 2, "p"))],
        vec![
            frag("f0", 3, "o"),
            frag("f1", 3, "o"),
            frag("f2", 3, "o"),
            frag("g0", 2, "p"),
            frag("g1", 2, "p"),
        ],
    );
    let reports = s.disappear();
    // one report, for the original key; no fragment is reported
    assert_eq!(reports, vec![ktag("o")]);
    assert_eq!(s.live_state, vec![send_unit(ktag("keep"), "z")]);
    // the family of `p` lacks a fragment and stays
    assert_eq!(s.dead_state, vec![end_unit(frag("g0", 2, "p"))]);
    // the fragments of the retired family are condemned no more
    assert!(!s.is_frozen(&frag("f0", 3, "o")));
    assert!(!s.is_frozen(&frag("f1", 3, "o")));
    assert!(!s.is_frozen(&frag("f2", 3, "o")));
    assert!(s.is_frozen(&frag("g0", 2, "p")));
    assert!(s.is_frozen(&frag("g1", 2, "p")));
}

#[test]
fn disappear_of_a_family_of_one() {
    // the fragment is condemned itself; its original key need not be
    let mut s = state(
        vec![send_unit(frag("f0", 1, "o"), "x")],
        vec![],
        vec![frag("f0", 1, "o")],
    );
    assert_eq!(s.disappear(), vec![ktag("o")]);
    assert!(s.live_state.is_empty());
    assert!(s.frozen_tags.is_empty());
}

#[test]
fn disappear_needs_each_fragment_condemned() {
    // the original key and the first fragment are condemned, the second
    // fragment is not: nothing leaves
    let mut s = state(
        vec![send_unit(frag("f0", 2, "o"), "x"), send_unit(frag("f1", 2, "o"), "y")],
        vec![],
        vec![ktag("o"), frag("f0", 2, "o")],
    );
    assert!(s.disappear().is_empty());
    assert_eq!(s.live_state.len(), 2);
    assert!(s.is_frozen(&frag("f0", 2, "o")));
    // once the second is condemned as well, the family leaves as one
    s.freeze(frag("f1", 2, "o"));
    assert_eq!(s.disappear(), vec![ktag("o")]);
    assert!(s.live_state.is_empty());
    assert!(!s.is_frozen(&frag("f0", 2, "o")));
    assert!(!s.is_frozen(&frag("f1", 2, "o")));
    assert!(s.is_frozen(&ktag("o")));
}

#[test]
fn disappear_does_not_count_a_fragment_under_a_condemned_original() {
    // all fragments at hand and the original key condemned, but no
    // fragment condemned itself
    let mut s = state(
        vec![send_unit(frag("f0", 2, "o"), "x"), send_unit(frag("f1", 2, "o"), "y")],
        vec![],
        vec![ktag("o")],
    );
    assert!(s.disappear().is_empty());
    assert_eq!(s.live_state.len(), 2);
}

#[test]
fn disappear_reports_families_in_the_order_met() {
    let mut s = state(
        vec![send_unit(frag("q0", 1, "q"), "x"), send_unit(ktag("a"), "z")],
        vec![end_unit(frag("p0", 1, "p"))],
        vec![frag("p0", 1, "p"), frag("q0", 1, "q"), ktag("a")],
    );
    let reports = s.disappear();
    assert_eq!(reports, vec![ktag("a"), ktag("q"), ktag("p")]);
    assert!(s.live_state.is_empty());
    assert!(s.dead_state.is_empty());
    assert!(s.frozen_tags.is_empty());
}

#[test]
fn disappear_with_an_atomic_unit_under_the_original_key() {
    // the unit tagged with the original key leaves; the fragment is not
    // condemned itself and stays
    let mut s = state(
        vec![send_unit(ktag("o"), "x"), send_unit(frag("f0", 1, "o"), "y")],
        vec![],
        vec![ktag("o")],
    );
    let reports = s.disappear();
    assert_eq!(reports, vec![ktag("o")]);
    assert_eq!(s.live_state, vec![send_unit(frag("f0", 1, "o"), "y")]);
    assert!(s.frozen_tags.is_empty());
}

#[test]
fn resurrect_takes_up_a_send_or_a_receive() {
    let mut s = state(vec![end_unit(ktag("a"))], vec![], vec![frag("f0", 2, "o"), ktag("o")]);
    let msg = RessurectMsg {
        dissapeared_tag: ktag("gone"),
        ress_tagged_proc: TaggedProc {
            tag: frag("f0", 2, "o"),
            proc: Process::Send(ChName("x".to_string()), Box::new(Process::End)),
        },
    };
    assert!(s.resurrect(&msg));
    assert_eq!(
        s.live_state,
        vec![end_unit(ktag("a")), send_unit(frag("f0", 2, "o"), "x")]
    );
    assert!(!s.is_frozen(&frag("f0", 2, "o")));
    assert!(s.is_frozen(&ktag("o")));
    assert!(s.dead_state.is_empty());
}

#[test]
fn resurrect_refuses_anything_else() {
    let mut s = state(vec![], vec![], vec![ktag("t")]);
    let msg = RessurectMsg {
        dissapeared_tag: ktag("gone"),
        ress_tagged_proc: TaggedProc {
            tag: ktag("t"),
            proc: Process::End,
        },
    };
    assert!(!s.resurrect(&msg));
    assert!(s.live_state.is_empty());
    assert!(s.is_frozen(&ktag("t")));
    assert_eq!(s.resurrect_all(&vec![msg]), Err(ProtocolError::NotResumable));
}

#[test]
fn resurrect_all_in_order() {
    let mut s = state(vec![], vec![], vec![]);
    let m = |t: &str, ch: &str| RessurectMsg {
        dissapeared_tag: ktag("gone"),
        ress_tagged_proc: TaggedProc {
            tag: ktag(t),
            proc: Process::Send(ChName(ch.to_string()), Box::new(Process::End)),
        },
    };
    assert_eq!(s.resurrect_all(&vec![m("a", "x"), m("b", "y")]), Ok(()));
    assert_eq!(
        s.live_state,
        vec![send_unit(ktag("a"), "x"), send_unit(ktag("b"), "y")]
    );
}

#[test]
fn finish_receive_gives_the_units_of_the_continuation() {
    let next = Process::Par(
        Box::new(Process::PVar(ProcVar("x".to_string()))),
        Box::new(Process::RollV(TagVar("t".to_string()))),
    );
    let got = finish_receive(
        &next,
        &ProcVar("x".to_string()),
        &Process::Send(ChName("m".to_string()), Box::new(Process::End)),
        &TagVar("t".to_string()),
        key("_tag_B_0"),
        &key("_tag_B_0"),
    )
    .unwrap();
    assert_eq!(
        got,
        vec![
            send_unit(frag("sp_0__tag_B_0", 2, "_tag_B_0"), "m"),
            unit(
                frag("sp_1__tag_B_0", 2, "_tag_B_0"),
                PrimProcess::RollK(key("_tag_B_0"))
            ),
        ]
    );
}

#[test]
fn finish_receive_refuses_another_key() {
    let got = finish_receive(
        &Process::End,
        &ProcVar("x".to_string()),
        &Process::End,
        &TagVar("t".to_string()),
        key("_tag_B_0"),
        &key("_tag_B_1"),
    );
    assert_eq!(got, Err(ProtocolError::ConfirmationMismatch));
}

#[test]
fn finish_receive_refuses_an_open_continuation() {
    let got = finish_receive(
        &Process::PVar(ProcVar("y".to_string())),
        &ProcVar("x".to_string()),
        &Process::End,
        &TagVar("t".to_string()),
        key("k"),
        &key("k"),
    );
    assert_eq!(got, Err(ProtocolError::OpenTerm));
}
