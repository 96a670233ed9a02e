use contest_solvers::lambda::{run_line, EvalOutcome, LineOutcome, Value};

fn int_result(line: &str) -> Option<String> {
    match run_line(line, 1_000_000) {
        LineOutcome::Evaluated(EvalOutcome::Done(Value::Int(x))) => Some(x.to_string()),
        _ => None,
    }
}

#[test]
fn adds_two_numbers() {
    assert_eq!(int_result("app (app add 1) 2"), Some("3".to_string()));
}

#[test]
fn applies_a_lambda() {
    assert_eq!(int_result("app (lam x (app (app add x) x)) 21"), Some("42".to_string()));
}

#[test]
fn if_true_picks_the_first() {
    assert_eq!(int_result("app (app (app if true) 1) 2"), Some("1".to_string()));
}

#[test]
fn greater_than_gives_a_boolean() {
    match run_line("app (app gt 3) 2", 1000) {
        LineOutcome::Evaluated(EvalOutcome::Done(Value::Bool(b))) => assert!(b),
        _ => panic!("expected a boolean"),
    }
}

#[test]
fn big_numbers_are_added_exactly() {
    assert_eq!(
        int_result("app (app add 99999999999999999999) 1"),
        Some("100000000000000000000".to_string())
    );
}

#[test]
fn empty_line_has_no_term() {
    assert!(matches!(run_line("", 1000), LineOutcome::NoTerm));
}

#[test]
fn applying_a_number_is_stuck() {
    assert!(matches!(run_line("app 1 2", 1000), LineOutcome::Evaluated(EvalOutcome::Stuck)));
}

#[test]
fn no_fuel_runs_out() {
    assert!(matches!(run_line("app (app add 1) 2", 0), LineOutcome::Evaluated(EvalOutcome::OutOfFuel)));
}

#[test]
fn if_leaves_the_unchosen_branch_unevaluated() {
    assert_eq!(int_result("app (app (app if false) (app 1 1)) 7"), Some("7".to_string()));
    assert_eq!(int_result("app (app (app if true) 5) (app 1 1)"), Some("5".to_string()));
}

#[test]
fn a_name_bound_only_in_a_sibling_is_no_term() {
    assert!(matches!(run_line("app (lam x x) x", 1000), LineOutcome::NoTerm));
    assert!(matches!(run_line("lam add add", 1000), LineOutcome::Evaluated(EvalOutcome::Done(Value::Lambda { .. }))));
}
