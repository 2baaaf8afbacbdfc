use pi_calculus::hopi::reductions::{chn_alpha_conversion, chn_free_names, var_free_names};
use pi_calculus::hopi::syntax::Process;

fn var(x: &str) -> Process {
    Process::PVar(x.to_string())
}

fn new(c: &str, p: Process) -> Process {
    Process::New(c.to_string(), Box::new(p))
}

fn par(a: Process, b: Process) -> Process {
    Process::Par(Box::new(a), Box::new(b))
}

fn send(c: &str, p: Process) -> Process {
    Process::Send(c.to_string(), Box::new(p))
}

fn receive(c: &str, x: &str, p: Process) -> Process {
    Process::Receive(c.to_string(), x.to_string(), Box::new(p))
}

fn sorted(mut v: Vec<String>) -> Vec<String> {
    v.sort();
    v
}

#[test]
fn free_process_variables() {
    assert!(var_free_names(&Process::End).is_empty());
    assert_eq!(var_free_names(&var("x")), vec!["x".to_string()]);
    assert!(var_free_names(&receive("a", "x", var("x"))).is_empty());
    // a binder holds for its continuation only
    let p = par(receive("a", "x", var("y")), par(var("x"), var("y")));
    assert_eq!(sorted(var_free_names(&p)), vec!["x".to_string(), "y".to_string()]);
    let p = par(var("x"), receive("a", "x", send("b", var("x"))));
    assert_eq!(var_free_names(&p), vec!["x".to_string()]);
    assert!(var_free_names(&new("x", send("x", Process::End))).is_empty());
}

#[test]
fn free_channel_names() {
    assert!(chn_free_names(&var("x")).is_empty());
    let p = par(
        new("a", send("a", send("b", Process::End))),
        receive("a", "x", send("c", var("x"))),
    );
    assert_eq!(
        sorted(chn_free_names(&p)),
        vec!["a".to_string(), "b".to_string(), "c".to_string()]
    );
    assert!(chn_free_names(&new("a", receive("a", "x", Process::End))).is_empty());
}

#[test]
fn renaming_a_restricted_channel() {
    let p = new("a", par(send("a", send("b", Process::End)), var("a")));
    assert_eq!(
        chn_alpha_conversion(p, "a".to_string(), "z".to_string()),
        Ok(new("z", par(send("z", send("b", Process::End)), var("a"))))
    );
    // outside the restriction nothing is renamed
    let p = par(send("a", Process::End), new("a", send("a", Process::End)));
    assert_eq!(
        chn_alpha_conversion(p, "a".to_string(), "z".to_string()),
        Ok(par(send("a", Process::End), new("z", send("z", Process::End))))
    );
    // under a second restriction of the same name the sends stay
    let p = new("a", par(send("a", Process::End), new("a", send("a", Process::End))));
    assert_eq!(
        chn_alpha_conversion(p, "a".to_string(), "z".to_string()),
        Ok(new(
            "z",
            par(send("z", Process::End), new("z", send("a", Process::End)))
        ))
    );
}

#[test]
fn renaming_to_a_free_name_is_refused() {
    let p = new("a", par(send("a", Process::End), send("b", Process::End)));
    assert_eq!(
        chn_alpha_conversion(p, "a".to_string(), "b".to_string()),
        Err("Name b is already a free name inside the given process".to_string())
    );
}
