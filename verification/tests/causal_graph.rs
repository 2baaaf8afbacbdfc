use pi_calculus::rollpi::environment::entities::causal_graph::{CausalGraph, HistoryError};
use pi_calculus::rollpi::environment::types::MemoryPiece;
use pi_calculus::rollpi::syntax::{ChName, ProcTag, ProcVar, Process, TagKey, TagVar, TaggedProc};

fn key(s: &str) -> TagKey {
    TagKey(s.to_string())
}

fn ktag(s: &str) -> ProcTag {
    ProcTag::PTKey(key(s))
}

fn frag(f: &str, n: i32, orig: &str) -> ProcTag {
    ProcTag::PTSplit(key(f), n, key(orig))
}

fn piece(from: &str, to: &str, s_tag: ProcTag, r_tag: ProcTag, new: &str) -> MemoryPiece {
    MemoryPiece::new(
        (from.to_string(), to.to_string()),
        (s_tag, (ChName("a".to_string()), Process::End)),
        (
            r_tag,
            (
                ChName("a".to_string()),
                ProcVar("x".to_string()),
                TagVar("t".to_string()),
                Process::PVar(ProcVar("x".to_string())),
            ),
        ),
        key(new),
    )
}

fn sorted_tags(notices: &[pi_calculus::rollpi::environment::entities::causal_graph::FreezeNotice]) -> Vec<String> {
    let mut v: Vec<String> = notices.iter().map(|n| format!("{:?}", n.tag)).collect();
    v.sort();
    v
}

#[test]
fn record_confirms_the_same_key_to_the_receiver() {
    let mut g = CausalGraph::new();
    let conf = g.record(piece("A", "B", ktag("s"), ktag("r"), "_tag_B_0"));
    assert_eq!(conf.to, "B");
    assert_eq!(conf.tag, key("_tag_B_0"));
}

#[test]
fn record_files_owners_and_links() {
    let mut g = CausalGraph::new();
    g.record(piece(
        "A",
        "B",
        frag("sp_0_A", 1, "A"),
        frag("sp_1_B", 2, "B"),
        "_tag_B_0",
    ));
    assert_eq!(g.owner_of(&ktag("_tag_B_0")), Some("B".to_string()));
    assert_eq!(g.owner_of(&frag("sp_0_A", 1, "A")), Some("A".to_string()));
    assert_eq!(g.owner_of(&frag("sp_1_B", 2, "B")), Some("B".to_string()));
    assert_eq!(g.owner_of(&ktag("A")), None);
    assert_eq!(g.successor_of(&frag("sp_0_A", 1, "A")), Some(ktag("_tag_B_0")));
    assert_eq!(g.successor_of(&frag("sp_1_B", 2, "B")), Some(ktag("_tag_B_0")));
    assert_eq!(g.successor_of(&ktag("_tag_B_0")), None);
    assert_eq!(g.fragments_of(&ktag("A")), vec![frag("sp_0_A", 1, "A")]);
    assert_eq!(g.fragments_of(&ktag("B")), vec![frag("sp_1_B", 2, "B")]);
    assert_eq!(g.fragments_of(&ktag("_tag_B_0")), Vec::<ProcTag>::new());
}

#[test]
fn record_with_one_tag_on_both_sides_leaves_it_to_the_receiver() {
    let mut g = CausalGraph::new();
    g.record(piece("A", "B", ktag("same"), ktag("same"), "n"));
    assert_eq!(g.owner_of(&ktag("same")), Some("B".to_string()));
}

#[test]
fn record_files_fragments_of_one_process_in_order() {
    let mut g = CausalGraph::new();
    g.record(piece(
        "B",
        "B",
        frag("sp_0_k", 2, "k"),
        frag("sp_1_k", 2, "k"),
        "n",
    ));
    assert_eq!(
        g.fragments_of(&ktag("k")),
        vec![frag("sp_0_k", 2, "k"), frag("sp_1_k", 2, "k")]
    );
}

#[test]
fn rollback_of_an_unknown_tag_is_an_error() {
    let mut g = CausalGraph::new();
    assert_eq!(g.rollback(ktag("nobody")).err(), Some(HistoryError::UnknownTag));
    assert!(!g.is_frozen(&ktag("nobody")));
}

#[test]
fn rollback_freezes_what_follows_causally() {
    let mut g = CausalGraph::new();
    // first rendezvous: A's send with B's receive gives k1
    g.record(piece(
        "A",
        "B",
        frag("sp_0_A", 1, "A"),
        frag("sp_0_B", 1, "B"),
        "k1",
    ));
    // second rendezvous: the two fragments of k1 meet and give k2
    g.record(piece(
        "B",
        "B",
        frag("sp_0_k1", 2, "k1"),
        frag("sp_1_k1", 2, "k1"),
        "k2",
    ));
    // third rendezvous, elsewhere
    g.record(piece("C", "D", ktag("c"), ktag("d"), "k3"));

    let notices = g.rollback(ktag("k1")).unwrap();
    // depth first: the tag, then its first fragment and the step it led to,
    // then its second fragment
    let order: Vec<ProcTag> = notices.iter().map(|n| n.tag.clone()).collect();
    assert_eq!(
        order,
        vec![
            ktag("k1"),
            frag("sp_0_k1", 2, "k1"),
            ktag("k2"),
            frag("sp_1_k1", 2, "k1"),
        ]
    );
    for n in &notices {
        assert_eq!(n.to, "B");
    }
    assert!(g.is_frozen(&ktag("k1")));
    assert!(g.is_frozen(&ktag("k2")));
    assert!(g.is_frozen(&frag("sp_0_k1", 2, "k1")));
    assert!(g.is_frozen(&frag("sp_1_k1", 2, "k1")));
    // what led to k1 is no consequence of it
    assert!(!g.is_frozen(&frag("sp_0_A", 1, "A")));
    assert!(!g.is_frozen(&frag("sp_0_B", 1, "B")));
    // nor is what happened elsewhere
    assert!(!g.is_frozen(&ktag("k3")));
    assert!(!g.is_frozen(&ktag("c")));
}

#[test]
fn rollback_tells_each_owner() {
    let mut g = CausalGraph::new();
    g.record(piece("A", "B", ktag("s"), ktag("r"), "k"));
    let notices = g.rollback(ktag("s")).unwrap();
    assert_eq!(notices.len(), 2);
    assert_eq!(notices[0].tag, ktag("s"));
    assert_eq!(notices[0].to, "A");
    assert_eq!(notices[1].tag, ktag("k"));
    assert_eq!(notices[1].to, "B");
}

#[test]
fn rollback_twice_is_the_same_as_once() {
    let mut g = CausalGraph::new();
    g.record(piece("A", "B", ktag("s"), ktag("r"), "k"));
    assert_eq!(g.rollback(ktag("s")).unwrap().len(), 2);
    assert!(g.rollback(ktag("s")).unwrap().is_empty());
    assert!(g.rollback(ktag("k")).unwrap().is_empty());
    // the other consumed tag leads to a tag that is condemned already
    let notices = g.rollback(ktag("r")).unwrap();
    assert_eq!(sorted_tags(&notices), vec![format!("{:?}", ktag("r"))]);
}

#[test]
fn rollback_ends_on_a_cycle() {
    let mut g = CausalGraph::new();
    // a step whose own key was consumed to make it
    g.record(piece("A", "B", ktag("k"), ktag("r"), "k"));
    let notices = g.rollback(ktag("k")).unwrap();
    assert_eq!(notices.len(), 1);
    assert!(g.is_frozen(&ktag("k")));
}

#[test]
fn retire_sends_each_unit_to_the_owner_of_the_other() {
    let mut g = CausalGraph::new();
    g.record(piece("A", "B", ktag("s"), ktag("r"), "k"));
    let (to_sender, to_receiver) = g.retire(&ktag("k")).unwrap().unwrap();
    assert_eq!(to_sender.to, "A");
    assert_eq!(to_sender.msg.dissapeared_tag, ktag("k"));
    assert_eq!(
        to_sender.msg.ress_tagged_proc,
        TaggedProc {
            tag: ktag("r"),
            proc: Process::Recv(
                ChName("a".to_string()),
                ProcVar("x".to_string()),
                TagVar("t".to_string()),
                Box::new(Process::PVar(ProcVar("x".to_string())))
            ),
        }
    );
    assert_eq!(to_receiver.to, "B");
    assert_eq!(to_receiver.msg.dissapeared_tag, ktag("k"));
    assert_eq!(
        to_receiver.msg.ress_tagged_proc,
        TaggedProc {
            tag: ktag("s"),
            proc: Process::Send(ChName("a".to_string()), Box::new(Process::End)),
        }
    );
}

#[test]
fn retire_twice_is_passed_over() {
    let mut g = CausalGraph::new();
    g.record(piece("A", "B", ktag("s"), ktag("r"), "k"));
    assert!(g.retire(&ktag("k")).unwrap().is_some());
    assert!(g.retire(&ktag("k")).unwrap().is_none());
    assert!(g.retire(&ktag("never")).unwrap().is_none());
    // the owners and links stay
    assert_eq!(g.owner_of(&ktag("k")), Some("B".to_string()));
    assert_eq!(g.successor_of(&ktag("s")), Some(ktag("k")));
}

#[test]
fn retire_refuses_a_record_that_pairs_nothing() {
    let mut g = CausalGraph::new();
    let mut m = piece("A", "B", ktag("s"), ktag("r"), "k");
    m.sender.proc = Process::End;
    g.record(m);
    assert_eq!(g.retire(&ktag("k")).err(), Some(HistoryError::BrokenPair));
}
