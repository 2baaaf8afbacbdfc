use crossbeam::channel::unbounded;
use pi_calculus::rollpi::environment::components::strategies::simple_order::{
    check_for_non_rec_comm, log_state,
};
use pi_calculus::rollpi::environment::entities::history::{entry_of, HistoryContext};
use pi_calculus::rollpi::environment::entities::participant::ParticipantState;
use pi_calculus::rollpi::environment::entities::tag_map::TagMap;
use pi_calculus::rollpi::environment::generator::Generator;
use pi_calculus::rollpi::environment::types::PartyComm;
use pi_calculus::rollpi::syntax::{
    insert_name, merge_names, names_contain, ChName, PrimProcess, ProcTag, ProcVar, Process,
    TagKey, TagVar, TaggedPrimProc,
};
use pi_calculus::text::{chars_of, same_chars, same_str, string_of};

fn ktag(s: &str) -> ProcTag {
    ProcTag::PTKey(TagKey(s.to_string()))
}

fn unit(proc: PrimProcess) -> TaggedPrimProc {
    TaggedPrimProc {
        tag: ktag("t"),
        proc,
    }
}

fn send_on(ch: &str) -> TaggedPrimProc {
    unit(PrimProcess::Send(ChName(ch.to_string()), Process::End))
}

fn recv_on(ch: &str) -> TaggedPrimProc {
    unit(PrimProcess::Recv(
        ChName(ch.to_string()),
        ProcVar("x".to_string()),
        TagVar("t".to_string()),
        Process::End,
    ))
}

#[test]
fn characters_and_strings() {
    assert_eq!(chars_of("aé0"), vec!['a', 'é', '0']);
    assert_eq!(chars_of(""), Vec::<char>::new());
    let v = vec!['a', 'b', 'é', 'd'];
    assert_eq!(string_of(&v, 1, 3), "bé");
    assert_eq!(string_of(&v, 2, 2), "");
    assert_eq!(string_of(&v, 0, 4), "abéd");
    assert!(same_chars(&v, &vec!['a', 'b', 'é', 'd']));
    assert!(!same_chars(&v, &vec!['a', 'b', 'é']));
    assert!(!same_chars(&v, &vec!['a', 'b', 'é', 'e']));
    assert!(same_str("abc", "abc"));
    assert!(!same_str("abc", "abd"));
    assert!(!same_str("abc", "ab"));
}

#[test]
fn name_lists_hold_each_name_once() {
    let mut names = vec!["a".to_string()];
    assert!(names_contain(&names, &"a".to_string()));
    assert!(!names_contain(&names, &"b".to_string()));
    insert_name(&mut names, &"b".to_string());
    insert_name(&mut names, &"a".to_string());
    assert_eq!(names, vec!["a".to_string(), "b".to_string()]);
    merge_names(
        &mut names,
        &vec!["c".to_string(), "b".to_string(), "c".to_string()],
    );
    assert_eq!(
        names,
        vec!["a".to_string(), "b".to_string(), "c".to_string()]
    );
}

#[test]
fn tag_map_behaves_as_a_map() {
    let mut m: TagMap<u32> = TagMap::new();
    assert!(!m.contains_key(&ktag("a")));
    assert_eq!(m.get(&ktag("a")), None);
    m.insert(ktag("a"), 1);
    m.insert(ktag("b"), 2);
    m.insert(ktag("a"), 3);
    assert_eq!(m.get(&ktag("a")), Some(&3));
    assert_eq!(m.get(&ktag("b")), Some(&2));
    assert_eq!(m.remove(&ktag("a")), Some(3));
    assert_eq!(m.remove(&ktag("a")), None);
    assert!(!m.contains_key(&ktag("a")));
    assert!(m.contains_key(&ktag("b")));
    // a fragment and a key with the same name are different tags
    assert!(!m.contains_key(&ProcTag::PTSplit(
        TagKey("b".to_string()),
        1,
        TagKey("b".to_string())
    )));
}

#[test]
fn state_line_for_the_log() {
    let state = ParticipantState {
        live_state: vec![
            send_on("a"),
            recv_on("b"),
            unit(PrimProcess::RollK(TagKey("k".to_string()))),
        ],
        dead_state: vec![unit(PrimProcess::End), send_on("c")],
        frozen_tags: vec![],
    };
    assert_eq!(
        log_state(&state),
        "- Send a - Recv b - Roll  xxx End - Send c -  ||| \n"
    );
    let empty = ParticipantState::new(vec![]);
    assert_eq!(log_state(&empty), " xxx  ||| \n");
}

#[test]
fn only_the_machinery_of_recursion_is_left() {
    assert!(check_for_non_rec_comm(&vec![]));
    assert!(check_for_non_rec_comm(&vec![
        send_on("rec_comb_A_t"),
        send_on("rec_norm_A_t"),
        recv_on("rec_norm_A_t"),
        unit(PrimProcess::End),
    ]));
    assert!(!check_for_non_rec_comm(&vec![send_on("comm_snd_A_B_l")]));
    assert!(!check_for_non_rec_comm(&vec![recv_on("comm_opt_A_B")]));
    // a receive on a combine channel still has work to do
    assert!(!check_for_non_rec_comm(&vec![recv_on("rec_comb_A_t")]));
}

#[test]
fn entries_by_participant() {
    let list = vec![("A".to_string(), 1), ("B".to_string(), 2), ("A".to_string(), 3)];
    assert_eq!(entry_of(&list, &"A".to_string()), Some(&1));
    assert_eq!(entry_of(&list, &"B".to_string()), Some(&2));
    assert_eq!(entry_of(&list, &"C".to_string()), None);
}

#[test]
fn history_context_starts_without_participants() {
    let (tx, rx) = unbounded::<ProcTag>();
    let ctx = HistoryContext::new(rx);
    assert!(ctx.hist_tag_recv.is_empty());
    assert!(ctx.hist_not_send.is_empty());
    assert!(ctx.roll_tag_recv.is_empty());
    assert!(ctx.roll_frz_send.is_empty());
    assert!(ctx.ress_tag_send.is_empty());
    tx.send(ktag("t")).unwrap();
    assert_eq!(ctx.diss_tag_recv.try_recv().unwrap(), ktag("t"));
}

#[test]
fn generator_can_take_participants() {
    let g = Generator::new();
    assert!(g.can_take());
}

#[test]
fn what_a_send_puts_on_a_channel() {
    let m = PartyComm::new("A".to_string(), Process::End, ktag("t"));
    assert_eq!(m.sender_id, "A");
    assert_eq!(m.process, Process::End);
    assert_eq!(m.tag, ktag("t"));
}
