use crossbeam::channel::unbounded;
use pi_calculus::rollpi::environment::entities::causal_graph::HistoryError;
use pi_calculus::rollpi::environment::entities::history::{HistoryContext, HistoryParticipant};
use pi_calculus::rollpi::environment::types::MemoryPiece;
use pi_calculus::rollpi::syntax::{ChName, ProcTag, ProcVar, Process, TagKey, TagVar};

fn key(s: &str) -> TagKey {
    TagKey(s.to_string())
}

fn ktag(s: &str) -> ProcTag {
    ProcTag::PTKey(key(s))
}

fn piece(from: &str, to: &str, s_tag: &str, r_tag: &str, new: &str) -> MemoryPiece {
    MemoryPiece::new(
        (from.to_string(), to.to_string()),
        (ktag(s_tag), (ChName("a".to_string()), Process::End)),
        (
            ktag(r_tag),
            (
                ChName("a".to_string()),
                ProcVar("x".to_string()),
                TagVar("t".to_string()),
                Process::End,
            ),
        ),
        key(new),
    )
}

#[test]
fn a_history_without_participants_has_nothing_to_do() {
    let (_tx, rx) = unbounded::<ProcTag>();
    let mut hist = HistoryParticipant::new(HistoryContext::new(rx));
    hist.run_tag_cycle();
    assert_eq!(hist.run_rollback_cycle(), Ok(()));
    assert_eq!(hist.run_dissapear_cycle(), Ok(()));
    assert_eq!(hist.step(), Ok(()));
    assert_eq!(hist.get_graph().owner_of(&ktag("k")), None);
}

#[test]
fn tag_cycle_files_and_confirms() {
    let (_d_tx, d_rx) = unbounded::<ProcTag>();
    let mut ctx = HistoryContext::new(d_rx);
    let (p_tx, p_rx) = unbounded::<MemoryPiece>();
    let (c_tx, c_rx) = unbounded::<TagKey>();
    ctx.hist_tag_recv.push(("B".to_string(), p_rx));
    ctx.hist_not_send.push(("B".to_string(), c_tx));
    let mut hist = HistoryParticipant::new(ctx);
    p_tx.send(piece("A", "B", "s1", "r1", "k1")).unwrap();
    p_tx.send(piece("A", "B", "s2", "r2", "k2")).unwrap();
    let confirmed = hist.run_tag_cycle();
    assert_eq!(confirmed.len(), 2);
    assert_eq!(confirmed[0].to, "B");
    assert_eq!(confirmed[0].tag, key("k1"));
    assert_eq!(confirmed[1].to, "B");
    assert_eq!(confirmed[1].tag, key("k2"));
    // one confirmation for each record, with its key, in order
    assert_eq!(c_rx.try_recv().unwrap(), key("k1"));
    assert_eq!(c_rx.try_recv().unwrap(), key("k2"));
    assert!(c_rx.try_recv().is_err());
    assert_eq!(hist.get_graph().owner_of(&ktag("k1")), Some("B".to_string()));
    assert_eq!(hist.get_graph().owner_of(&ktag("s2")), Some("A".to_string()));
    assert_eq!(hist.get_graph().successor_of(&ktag("r2")), Some(ktag("k2")));
}

#[test]
fn rollback_cycle_tells_the_owners() {
    let (_d_tx, d_rx) = unbounded::<ProcTag>();
    let mut ctx = HistoryContext::new(d_rx);
    let (p_tx, p_rx) = unbounded::<MemoryPiece>();
    let (r_tx, r_rx) = unbounded::<ProcTag>();
    let (fa_tx, fa_rx) = unbounded::<ProcTag>();
    let (fb_tx, fb_rx) = unbounded::<ProcTag>();
    ctx.hist_tag_recv.push(("B".to_string(), p_rx));
    ctx.roll_tag_recv.push(("B".to_string(), r_rx));
    ctx.roll_frz_send.push(("A".to_string(), fa_tx));
    ctx.roll_frz_send.push(("B".to_string(), fb_tx));
    let mut hist = HistoryParticipant::new(ctx);
    p_tx.send(piece("A", "B", "s", "r", "k")).unwrap();
    r_tx.send(ktag("s")).unwrap();
    assert_eq!(hist.step(), Ok(()));
    assert_eq!(fa_rx.try_recv().unwrap(), ktag("s"));
    assert!(fa_rx.try_recv().is_err());
    assert_eq!(fb_rx.try_recv().unwrap(), ktag("k"));
    assert!(fb_rx.try_recv().is_err());
    assert!(hist.get_graph().is_frozen(&ktag("s")));
    assert!(hist.get_graph().is_frozen(&ktag("k")));
    assert!(!hist.get_graph().is_frozen(&ktag("r")));
}

#[test]
fn rollback_cycle_for_a_tag_that_nobody_owns_is_an_error() {
    let (_d_tx, d_rx) = unbounded::<ProcTag>();
    let mut ctx = HistoryContext::new(d_rx);
    let (r_tx, r_rx) = unbounded::<ProcTag>();
    ctx.roll_tag_recv.push(("B".to_string(), r_rx));
    let mut hist = HistoryParticipant::new(ctx);
    r_tx.send(ktag("nobody")).unwrap();
    assert_eq!(hist.run_rollback_cycle(), Err(HistoryError::UnknownTag));
    assert!(!hist.get_graph().is_frozen(&ktag("nobody")));
}

#[test]
fn rollback_cycle_for_an_owner_without_a_channel_is_an_error() {
    let (_d_tx, d_rx) = unbounded::<ProcTag>();
    let mut ctx = HistoryContext::new(d_rx);
    let (p_tx, p_rx) = unbounded::<MemoryPiece>();
    let (r_tx, r_rx) = unbounded::<ProcTag>();
    ctx.hist_tag_recv.push(("B".to_string(), p_rx));
    ctx.roll_tag_recv.push(("B".to_string(), r_rx));
    let mut hist = HistoryParticipant::new(ctx);
    p_tx.send(piece("A", "B", "s", "r", "k")).unwrap();
    r_tx.send(ktag("k")).unwrap();
    assert_eq!(hist.step(), Err(HistoryError::UnknownParticipant));
    // the tag is condemned all the same
    assert!(hist.get_graph().is_frozen(&ktag("k")));
}

#[test]
fn disappear_cycle_sends_the_units_back() {
    let (d_tx, d_rx) = unbounded::<ProcTag>();
    let mut ctx = HistoryContext::new(d_rx);
    let (p_tx, p_rx) = unbounded::<MemoryPiece>();
    let (sa_tx, sa_rx) = unbounded();
    let (sb_tx, sb_rx) = unbounded();
    ctx.hist_tag_recv.push(("B".to_string(), p_rx));
    ctx.ress_tag_send.push(("A".to_string(), sa_tx));
    ctx.ress_tag_send.push(("B".to_string(), sb_tx));
    let mut hist = HistoryParticipant::new(ctx);
    p_tx.send(piece("A", "B", "s", "r", "k")).unwrap();
    d_tx.send(ktag("k")).unwrap();
    d_tx.send(ktag("k")).unwrap();
    d_tx.send(ktag("never")).unwrap();
    assert_eq!(hist.step(), Ok(()));
    // exactly two messages: each owner gets the unit of the other
    let to_a = sa_rx.try_recv().unwrap();
    assert_eq!(to_a.dissapeared_tag, ktag("k"));
    assert_eq!(to_a.ress_tagged_proc.tag, ktag("r"));
    assert!(sa_rx.try_recv().is_err());
    let to_b = sb_rx.try_recv().unwrap();
    assert_eq!(to_b.dissapeared_tag, ktag("k"));
    assert_eq!(to_b.ress_tagged_proc.tag, ktag("s"));
    assert!(sb_rx.try_recv().is_err());
}

#[test]
fn disappear_cycle_on_a_broken_pair_is_an_error() {
    let (d_tx, d_rx) = unbounded::<ProcTag>();
    let mut ctx = HistoryContext::new(d_rx);
    let (p_tx, p_rx) = unbounded::<MemoryPiece>();
    ctx.hist_tag_recv.push(("B".to_string(), p_rx));
    let mut hist = HistoryParticipant::new(ctx);
    let mut m = piece("A", "B", "s", "r", "k");
    m.receiver.proc = Process::End;
    p_tx.send(m).unwrap();
    d_tx.send(ktag("k")).unwrap();
    assert_eq!(hist.step(), Err(HistoryError::BrokenPair));
}

#[test]
fn disappear_cycle_for_an_owner_without_a_channel_is_an_error() {
    let (d_tx, d_rx) = unbounded::<ProcTag>();
    let mut ctx = HistoryContext::new(d_rx);
    let (p_tx, p_rx) = unbounded::<MemoryPiece>();
    let (sa_tx, _sa_rx) = unbounded();
    ctx.hist_tag_recv.push(("B".to_string(), p_rx));
    ctx.ress_tag_send.push(("A".to_string(), sa_tx));
    let mut hist = HistoryParticipant::new(ctx);
    p_tx.send(piece("A", "B", "s", "r", "k")).unwrap();
    hist.run_tag_cycle();
    d_tx.send(ktag("k")).unwrap();
    assert_eq!(
        hist.run_dissapear_cycle(),
        Err(HistoryError::UnknownParticipant)
    );
}

fn history_for(confirm: &[&str], freeze: &[&str], resurrect: &[&str]) -> HistoryParticipant {
    let (_d_tx, d_rx) = unbounded::<ProcTag>();
    let mut ctx = HistoryContext::new(d_rx);
    for id in confirm {
        let (tx, _rx) = unbounded::<TagKey>();
        ctx.hist_not_send.push((id.to_string(), tx));
    }
    for id in freeze {
        let (tx, _rx) = unbounded::<ProcTag>();
        ctx.roll_frz_send.push((id.to_string(), tx));
    }
    for id in resurrect {
        let (tx, _rx) = unbounded();
        ctx.ress_tag_send.push((id.to_string(), tx));
    }
    HistoryParticipant::new(ctx)
}

#[test]
fn file_records_files_each_and_owes_what_can_be_sent() {
    let mut hist = history_for(&["B"], &[], &[]);
    let owed = hist.file_records(vec![
        piece("A", "B", "s1", "r1", "k1"),
        piece("A", "C", "s2", "r2", "k2"),
        piece("B", "B", "s3", "r3", "k3"),
    ]);
    // C has no channel: its record is filed, and nothing is owed for it
    assert_eq!(owed.len(), 2);
    assert_eq!((owed[0].to.as_str(), &owed[0].tag), ("B", &key("k1")));
    assert_eq!((owed[1].to.as_str(), &owed[1].tag), ("B", &key("k3")));
    let graph = hist.get_graph();
    assert_eq!(graph.owner_of(&ktag("k1")), Some("B".to_string()));
    assert_eq!(graph.owner_of(&ktag("k2")), Some("C".to_string()));
    assert_eq!(graph.owner_of(&ktag("s3")), Some("B".to_string()));
    assert_eq!(graph.successor_of(&ktag("s2")), Some(ktag("k2")));
    assert!(hist.file_records(vec![]).is_empty());
}

#[test]
fn tag_cycle_confirms_only_where_a_channel_is() {
    let (_d_tx, d_rx) = unbounded::<ProcTag>();
    let mut ctx = HistoryContext::new(d_rx);
    let (p_tx, p_rx) = unbounded::<MemoryPiece>();
    let (c_tx, c_rx) = unbounded::<TagKey>();
    ctx.hist_tag_recv.push(("B".to_string(), p_rx));
    ctx.hist_not_send.push(("B".to_string(), c_tx));
    let mut hist = HistoryParticipant::new(ctx);
    p_tx.send(piece("A", "C", "s1", "r1", "k1")).unwrap();
    p_tx.send(piece("A", "B", "s2", "r2", "k2")).unwrap();
    let confirmed = hist.run_tag_cycle();
    assert_eq!(confirmed.len(), 1);
    assert_eq!(confirmed[0].to, "B");
    assert_eq!(confirmed[0].tag, key("k2"));
    assert_eq!(c_rx.try_recv().unwrap(), key("k2"));
    assert!(c_rx.try_recv().is_err());
    assert_eq!(hist.get_graph().owner_of(&ktag("k1")), Some("C".to_string()));
}

#[test]
fn spread_rollbacks_takes_the_requests_in_order() {
    let mut hist = history_for(&[], &["A", "B"], &[]);
    hist.file_records(vec![
        piece("A", "B", "s1", "r1", "k1"),
        piece("A", "B", "s2", "r2", "k2"),
    ]);
    let (notices, outcome) = hist.spread_rollbacks(vec![ktag("s1"), ktag("k1"), ktag("r2")]);
    assert_eq!(outcome, Ok(()));
    // the second request is for a tag that the first has condemned
    let told: Vec<(String, ProcTag)> = notices.into_iter().map(|n| (n.to, n.tag)).collect();
    assert_eq!(
        told,
        vec![
            ("A".to_string(), ktag("s1")),
            ("B".to_string(), ktag("k1")),
            ("B".to_string(), ktag("r2")),
            ("B".to_string(), ktag("k2")),
        ]
    );
    let graph = hist.get_graph();
    assert!(graph.is_frozen(&ktag("s1")));
    assert!(graph.is_frozen(&ktag("k2")));
    assert!(!graph.is_frozen(&ktag("r1")));
    assert!(!graph.is_frozen(&ktag("s2")));
    let (none, outcome) = hist.spread_rollbacks(vec![]);
    assert!(none.is_empty());
    assert_eq!(outcome, Ok(()));
}

#[test]
fn spread_rollbacks_ends_at_a_tag_that_nobody_owns() {
    let mut hist = history_for(&[], &["A", "B"], &[]);
    hist.file_records(vec![
        piece("A", "B", "s1", "r1", "k1"),
        piece("A", "B", "s2", "r2", "k2"),
    ]);
    let (notices, outcome) = hist.spread_rollbacks(vec![ktag("k1"), ktag("nobody"), ktag("k2")]);
    assert_eq!(outcome, Err(HistoryError::UnknownTag));
    // what came before the error stands, what came after it is not looked at
    assert_eq!(notices.len(), 1);
    assert_eq!(notices[0].to, "B");
    assert_eq!(notices[0].tag, ktag("k1"));
    let graph = hist.get_graph();
    assert!(graph.is_frozen(&ktag("k1")));
    assert!(!graph.is_frozen(&ktag("nobody")));
    assert!(!graph.is_frozen(&ktag("k2")));
}

#[test]
fn spread_rollbacks_ends_at_an_owner_that_cannot_be_told() {
    let mut hist = history_for(&[], &["B"], &[]);
    hist.file_records(vec![
        piece("A", "B", "s1", "r1", "k1"),
        piece("A", "B", "s2", "r2", "k2"),
    ]);
    let (notices, outcome) = hist.spread_rollbacks(vec![ktag("r1"), ktag("s2"), ktag("r2")]);
    assert_eq!(outcome, Err(HistoryError::UnknownParticipant));
    // the first request is told; the second condemns, and nobody is told
    let told: Vec<(String, ProcTag)> = notices.into_iter().map(|n| (n.to, n.tag)).collect();
    assert_eq!(
        told,
        vec![("B".to_string(), ktag("r1")), ("B".to_string(), ktag("k1"))]
    );
    let graph = hist.get_graph();
    assert!(graph.is_frozen(&ktag("s2")));
    assert!(graph.is_frozen(&ktag("k2")));
    assert!(!graph.is_frozen(&ktag("r2")));
}

#[test]
fn retire_steps_sends_each_unit_to_the_owner_of_the_other() {
    let mut hist = history_for(&[], &[], &["A", "B"]);
    hist.file_records(vec![
        piece("A", "B", "s1", "r1", "k1"),
        piece("B", "A", "s2", "r2", "k2"),
    ]);
    let (notices, outcome) =
        hist.retire_steps(vec![ktag("k1"), ktag("never"), ktag("k1"), ktag("k2")]);
    assert_eq!(outcome, Ok(()));
    let sent: Vec<(String, ProcTag, ProcTag)> = notices
        .into_iter()
        .map(|n| (n.to, n.msg.dissapeared_tag, n.msg.ress_tagged_proc.tag))
        .collect();
    assert_eq!(
        sent,
        vec![
            ("A".to_string(), ktag("k1"), ktag("r1")),
            ("B".to_string(), ktag("k1"), ktag("s1")),
            ("B".to_string(), ktag("k2"), ktag("r2")),
            ("A".to_string(), ktag("k2"), ktag("s2")),
        ]
    );
    // both steps are forgotten
    let (again, outcome) = hist.retire_steps(vec![ktag("k1"), ktag("k2")]);
    assert!(again.is_empty());
    assert_eq!(outcome, Ok(()));
}

#[test]
fn retire_steps_ends_at_a_broken_pair() {
    let mut hist = history_for(&[], &[], &["A", "B"]);
    let mut broken = piece("A", "B", "s2", "r2", "k2");
    broken.receiver.proc = Process::End;
    hist.file_records(vec![
        piece("A", "B", "s1", "r1", "k1"),
        broken,
        piece("A", "B", "s3", "r3", "k3"),
    ]);
    let (notices, outcome) = hist.retire_steps(vec![ktag("k1"), ktag("k2"), ktag("k3")]);
    assert_eq!(outcome, Err(HistoryError::BrokenPair));
    assert_eq!(notices.len(), 2);
    assert_eq!(notices[0].msg.dissapeared_tag, ktag("k1"));
    assert_eq!(notices[1].msg.dissapeared_tag, ktag("k1"));
    // the step after the error is still on record
    let (rest, outcome) = hist.retire_steps(vec![ktag("k2"), ktag("k3")]);
    assert_eq!(outcome, Ok(()));
    assert_eq!(rest.len(), 2);
    assert_eq!(rest[0].msg.dissapeared_tag, ktag("k3"));
}

#[test]
fn retire_steps_ends_at_an_owner_that_cannot_be_reached() {
    let mut hist = history_for(&[], &[], &["A"]);
    hist.file_records(vec![piece("A", "A", "s1", "r1", "k1"), piece("A", "B", "s2", "r2", "k2")]);
    let (notices, outcome) = hist.retire_steps(vec![ktag("k1"), ktag("k2")]);
    assert_eq!(outcome, Err(HistoryError::UnknownParticipant));
    assert_eq!(notices.len(), 2);
    assert_eq!(notices[0].to, "A");
    assert_eq!(notices[1].to, "A");
    assert_eq!(notices[1].msg.dissapeared_tag, ktag("k1"));
}
