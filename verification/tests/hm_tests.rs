use contest_solvers::hm::{InferOutcome, State};

fn type_of(line: &str) -> String {
    let mut st = State::new();
    let mut env = st.globals();
    match st.infer_line(line, &mut env, 1000) {
        InferOutcome::Typed(t) => t.to_string(),
        InferOutcome::NoTerm => "no term".to_string(),
        InferOutcome::TooDeep => "too deep".to_string(),
    }
}

#[test]
fn addition_is_int() {
    assert_eq!(type_of("app (app add 1) 2"), "int");
}

#[test]
fn identity_is_a_function_of_a_fresh_variable() {
    assert_eq!(type_of("lam x x"), "(lam v3 v3)");
}

#[test]
fn applied_identity_is_int() {
    assert_eq!(type_of("app (lam x x) 1"), "int");
}

#[test]
fn true_is_bool() {
    assert_eq!(type_of("true"), "bool");
}

#[test]
fn comparison_is_bool() {
    assert_eq!(type_of("app (app gt 1) 2"), "bool");
}

#[test]
fn empty_line_has_no_type() {
    assert_eq!(type_of(""), "no term");
}
