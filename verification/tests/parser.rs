use pi_calculus::calculus::parser::{parse, parse_chars};
use pi_calculus::calculus::syntax::{AtomicAction, Process};

fn run_tests(tests: Vec<(&str, &Process)>) {
    for (test, expected) in tests {
        let result = parse(test);
        match result {
            Ok(process) => assert_eq!(process, *expected),
            Err(err) => assert!(false, "Expected a process, but got {}", err.to_string()),
        }
    }
}

fn message_of(input: &str) -> String {
    match parse(input) {
        Ok(p) => panic!("expected an error, but got {:?}", p),
        Err(e) => e.to_string(),
    }
}

fn send(ch: &str, val: &str, next: Process) -> Process {
    Process::Prefix(
        AtomicAction::Send(ch.to_string(), val.to_string()),
        Box::new(next),
    )
}

fn receive(ch: &str, val: &str, next: Process) -> Process {
    Process::Prefix(
        AtomicAction::Receive(ch.to_string(), val.to_string()),
        Box::new(next),
    )
}

#[test]
fn test_primary() {
    let expected = Process::End;

    let tests = vec![("0", &expected), ("(0)", &expected), ("((0))", &expected)];

    run_tests(tests)
}

#[test]
fn test_actions() {
    let a_send_b = AtomicAction::Send("a".to_string(), "b".to_string());
    let b_recv_c = AtomicAction::Receive("b".to_string(), "c".to_string());

    let test1 = (
        "a<b>.0",
        &Process::Prefix(a_send_b.clone(), Box::new(Process::End)),
    );

    let test2 = (
        "a<b>.b[c].0",
        &Process::Prefix(
            a_send_b,
            Box::new(Process::Prefix(b_recv_c, Box::new(Process::End))),
        ),
    );

    run_tests(vec![test1, test2])
}

#[test]
fn test_restriction() {
    let x_send_b = AtomicAction::Send("x".to_string(), "b".to_string());
    let x_recv_c = AtomicAction::Receive("x".to_string(), "c".to_string());
    let par_proc = Process::Par(
        Box::new(Process::Prefix(x_send_b, Box::new(Process::End))),
        Box::new(Process::Prefix(x_recv_c, Box::new(Process::End))),
    );
    let res_a = Process::New("x".to_string(), Box::new(par_proc));

    run_tests(vec![("\\x.(x<b>.0 | x[c].0)", &res_a)])
}

#[test]
fn test_restriction_2() {
    let x_send_b = AtomicAction::Send("x".to_string(), "b".to_string());
    let x_recv_c = AtomicAction::Receive("x".to_string(), "c".to_string());
    let par_proc = Process::Par(
        Box::new(Process::Prefix(x_send_b.clone(), Box::new(Process::End))),
        Box::new(Process::Prefix(x_recv_c.clone(), Box::new(Process::End))),
    );
    let res_a = Process::New("x".to_string(), Box::new(par_proc));

    let new_y = Process::New("y".to_string(), Box::new(res_a));

    run_tests(vec![("\\y.\\x.(x<b>.0 | x[c].0)", &new_y)])
}

#[test]
fn test_restriction_par_prio() {
    let x_send_b = AtomicAction::Send("x".to_string(), "b".to_string());
    let x_send_b_p = Process::Prefix(x_send_b, Box::new(Process::End));

    let x_recv_c = AtomicAction::Receive("x".to_string(), "c".to_string());
    let x_recv_c_p = Process::Prefix(x_recv_c, Box::new(Process::End));

    let abs = Process::New(
        "y".to_string(),
        Box::new(Process::New("x".to_string(), Box::new(x_send_b_p))),
    );

    let res = Process::Par(Box::new(abs), Box::new(x_recv_c_p));

    run_tests(vec![("\\y.\\x.x<b>.0 | x[c].0", &res)])
}

#[test]
fn sum_binds_tighter_than_par() {
    let expected = Process::Par(
        Box::new(Process::Sum(
            Box::new(send("a", "b", Process::End)),
            Box::new(Process::End),
        )),
        Box::new(Process::End),
    );
    run_tests(vec![("a<b>.0 + 0 | 0", &expected)])
}

#[test]
fn par_and_sum_nest_to_the_left() {
    let par = Process::Par(
        Box::new(Process::Par(
            Box::new(Process::End),
            Box::new(Process::End),
        )),
        Box::new(Process::End),
    );
    let sum = Process::Sum(
        Box::new(Process::Sum(
            Box::new(Process::End),
            Box::new(Process::End),
        )),
        Box::new(Process::End),
    );
    run_tests(vec![("0|0|0", &par), ("0+0+0", &sum)])
}

#[test]
fn action_at_the_end_needs_no_continuation() {
    let expected = send("a", "b", Process::End);
    run_tests(vec![("a<b>", &expected)]);
    let expected = receive("a", "b", receive("c", "d", Process::End));
    run_tests(vec![("a[b].c[d]", &expected)]);
}

#[test]
fn a_send_is_looked_for_before_a_receive() {
    // the first '<' of the rest of the text ends the channel of a send
    let expected = send("a[b].c", "d", Process::End);
    run_tests(vec![("a[b].c<d>", &expected)]);
}

#[test]
fn spaces_mean_nothing() {
    let expected = send("ab", "cd", Process::End);
    run_tests(vec![(" a b < c d > . 0 ", &expected)]);
}

#[test]
fn a_letter_decides_between_action_and_primary() {
    // a digit is no letter: the term is read as a primary term
    assert_eq!(
        message_of("1<b>.0"),
        "Parse Error: Unexpected token for primary expression - expected 0 or '(': 1<b>.0"
    );
    // a letter that is not ASCII begins an action as well
    let expected = send("é", "b", Process::End);
    run_tests(vec![("é<b>.0", &expected)]);
}

#[test]
fn action_rest_begins_after_the_first_closing_bracket() {
    // the channel is all that stands before the first '<'
    let expected = send("a|b", "c", Process::End);
    run_tests(vec![("a|b<c>.0", &expected)]);
    // the rest begins after the first '>' of the text
    assert_eq!(
        message_of("a>b<c>.0"),
        "Parse Error: Unexpected token for atomic action - expected '.' or end of input: a>b<c>.0"
    );
}

#[test]
fn error_empty_input() {
    assert_eq!(message_of(""), "Parse Error: Empty input");
    assert_eq!(message_of("   "), "Parse Error: Empty input");
    assert_eq!(message_of("0|"), "Parse Error: Empty input");
}

#[test]
fn error_trailing_input() {
    assert_eq!(
        message_of("0 0"),
        "Parse Error: Unexpected token(s) - expected empty end of input: 0"
    );
    assert_eq!(
        message_of("(0))"),
        "Parse Error: Unexpected token(s) - expected empty end of input: )"
    );
}

#[test]
fn error_restriction() {
    assert_eq!(
        message_of("\\.0"),
        "Parse Error: Unexpected token for new expression - expected \\x.P: \\.0"
    );
    assert_eq!(
        message_of("\\x0"),
        "Parse Error: Unexpected token for new expression - expected \\x.P: \\x0"
    );
}

#[test]
fn error_action() {
    assert_eq!(
        message_of("a.0"),
        "Parse Error: Unexpected token(s) for action - expected a<b> or a[b]: a.0"
    );
    // the channel and the name must differ
    assert_eq!(
        message_of("a<a>.0"),
        "Parse Error: Unexpected token(s) for action - expected a<b> or a[b]: a<a>.0"
    );
    assert_eq!(
        message_of("a<>.0"),
        "Parse Error: Unexpected token(s) for action - expected a<b> or a[b]: a<>.0"
    );
}

#[test]
fn error_prefix() {
    assert_eq!(
        message_of("a<b>0"),
        "Parse Error: Unexpected token for atomic action - expected '.' or end of input: a<b>0"
    );
}

#[test]
fn error_unclosed_parenthesis() {
    assert_eq!(
        message_of("(0"),
        "Parse Error: Unexpected token for paranthesis expression - expected ')': (0"
    );
}

#[test]
fn error_primary() {
    assert_eq!(
        message_of(")"),
        "Parse Error: Unexpected token for primary expression - expected 0 or '(': )"
    );
}

#[test]
fn the_letters_are_what_the_flags_say() {
    let text: Vec<char> = "a<b>.0".chars().collect();
    let letters = vec![true, false, true, false, false, false];
    assert_eq!(
        parse_chars(&text, &letters).ok(),
        Some(send("a", "b", Process::End))
    );
    // without a letter at its head the text is read as a primary term
    let none = vec![false; 6];
    assert_eq!(
        parse_chars(&text, &none).err().map(|e| e.to_string()),
        Some(
            "Parse Error: Unexpected token for primary expression - expected 0 or '(': a<b>.0"
                .to_string()
        )
    );
    // with a letter at its head a digit begins an action
    let text: Vec<char> = "0<b>".chars().collect();
    assert_eq!(
        parse_chars(&text, &vec![true, false, false, false]).ok(),
        Some(send("0", "b", Process::End))
    );
}
