use pi_calculus::rollpi::environment::entities::tag_creator::TagCreator;
use pi_calculus::rollpi::environment::types::MemoryPiece;
use pi_calculus::rollpi::syntax::{ChName, ProcTag, ProcVar, Process, TagKey, TagVar};
use pi_calculus::text::{push_decimal, starts_with};

#[test]
fn minted_keys_carry_prefix_and_number() {
    let mut c = TagCreator::new("B".to_string());
    assert!(c.can_create());
    assert_eq!(c.create_new_tag(), TagKey("_tag_B_0".to_string()));
    assert_eq!(c.create_new_tag(), TagKey("_tag_B_1".to_string()));
    for _ in 2..10 {
        c.create_new_tag();
    }
    assert_eq!(c.create_new_tag(), TagKey("_tag_B_10".to_string()));
}

#[test]
fn minted_keys_are_pairwise_distinct() {
    let prefixes = ["A", "B", "A_1", "A_", "", "_tag_A"];
    let mut seen: Vec<TagKey> = Vec::new();
    for p in prefixes {
        let mut c = TagCreator::new(p.to_string());
        for _ in 0..25 {
            let k = c.create_new_tag();
            assert!(!seen.contains(&k), "{:?} minted twice", k);
            seen.push(k);
        }
    }
    assert_eq!(seen.len(), 150);
}

#[test]
fn decimal_notation() {
    let cases: [(usize, &str); 6] = [
        (0, "0"),
        (7, "7"),
        (10, "10"),
        (409, "409"),
        (1000, "1000"),
        (usize::MAX, "18446744073709551615"),
    ];
    for (n, want) in cases {
        let mut s = "x".to_string();
        push_decimal(&mut s, n);
        assert_eq!(s, format!("x{}", want));
    }
}

#[test]
fn prefix_test() {
    assert!(starts_with("comm_opt_A_B", "comm"));
    assert!(starts_with("comm", "comm"));
    assert!(starts_with("anything", ""));
    assert!(!starts_with("com", "comm"));
    assert!(!starts_with("rec_norm_A_t", "comm"));
    assert!(starts_with("rec_norm_A_t", "rec_norm"));
}

#[test]
fn memory_piece_pairs_a_send_with_a_receive() {
    let piece = MemoryPiece::new(
        ("A".to_string(), "B".to_string()),
        (
            ProcTag::PTKey(TagKey("s".to_string())),
            (ChName("a".to_string()), Process::End),
        ),
        (
            ProcTag::PTKey(TagKey("r".to_string())),
            (
                ChName("a".to_string()),
                ProcVar("x".to_string()),
                TagVar("t".to_string()),
                Process::PVar(ProcVar("x".to_string())),
            ),
        ),
        TagKey("_tag_B_0".to_string()),
    );
    assert_eq!(piece.ids, ("A".to_string(), "B".to_string()));
    assert_eq!(piece.sender.tag, ProcTag::PTKey(TagKey("s".to_string())));
    assert_eq!(
        piece.sender.proc,
        Process::Send(ChName("a".to_string()), Box::new(Process::End))
    );
    assert_eq!(piece.receiver.tag, ProcTag::PTKey(TagKey("r".to_string())));
    assert_eq!(
        piece.receiver.proc,
        Process::Recv(
            ChName("a".to_string()),
            ProcVar("x".to_string()),
            TagVar("t".to_string()),
            Box::new(Process::PVar(ProcVar("x".to_string())))
        )
    );
    assert_eq!(piece.new_mem_tag, TagKey("_tag_B_0".to_string()));
    let (ids, sender, receiver, tag) = piece.into_parts();
    assert_eq!(ids.1, "B");
    assert_eq!(sender.tag, ProcTag::PTKey(TagKey("s".to_string())));
    assert_eq!(receiver.tag, ProcTag::PTKey(TagKey("r".to_string())));
    assert_eq!(tag, TagKey("_tag_B_0".to_string()));
}
