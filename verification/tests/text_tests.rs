use contest_solvers::hm::{new_func, unify, Type};
use contest_solvers::lexer::{is_digits, tokenize};
use contest_solvers::obsidian::Bits as WordBits;

#[test]
fn tokenize_splits_words_and_parens() {
    assert_eq!(tokenize("app (lam x x) 12"), vec!["app", "(", "lam", "x", "x", ")", "12"]);
    assert_eq!(tokenize("  a+b  "), vec!["a", "b"]);
    assert_eq!(tokenize(""), Vec::<String>::new());
}

#[test]
fn is_digits_accepts_only_digits() {
    assert!(is_digits("0123"));
    assert!(is_digits(""));
    assert!(!is_digits("12a"));
}

#[test]
fn substitution_replaces_a_variable() {
    let mut t = new_func(Type::Var { id: 1 }, Type::Int);
    let changed = t.sub(&(1, Type::Bool));
    assert!(changed);
    assert_eq!(t.to_string(), "(lam bool int)");
    let mut u = Type::Int;
    assert!(!u.sub(&(1, Type::Bool)));
}

#[test]
fn unify_binds_a_variable() {
    let mut subs = Vec::new();
    assert!(unify(Type::Var { id: 7 }, Type::Int, &mut subs, 100));
    assert_eq!(subs.len(), 1);
    assert_eq!(subs[0].0, 7);
    assert_eq!(subs[0].1.to_string(), "int");
}

#[test]
fn unify_of_equal_types_binds_nothing() {
    let mut subs = Vec::new();
    assert!(unify(Type::Int, Type::Int, &mut subs, 100));
    assert!(subs.is_empty());
}

#[test]
fn words_are_pushed_and_read_back() {
    let mut g = WordBits::new(1, 70);
    for i in 0..70 {
        g.push(i % 3 == 0);
    }
    assert_eq!(g.cell_count(), 70);
    assert!(g.get(0, 0));
    assert!(!g.get(1, 0));
    assert!(g.get(69, 0));
    assert!(!g.get(68, 0));
    g.set(68, 0);
    assert!(g.get(68, 0));
}

#[test]
fn unify_makes_function_types_equal() {
    let mut t1 = new_func(Type::Var { id: 0 }, Type::Int);
    let mut t2 = new_func(Type::Bool, Type::Var { id: 1 });
    let mut subs = Vec::new();
    assert!(unify(t1.duplicate(), t2.duplicate(), &mut subs, 100));
    assert_eq!(subs.len(), 2);
    for s in subs.iter() {
        t1.sub(s);
        t2.sub(s);
    }
    assert_eq!(t1.to_string(), t2.to_string());
    assert_eq!(t1.to_string(), "(lam bool int)");
}

#[test]
fn pushed_cells_read_back_in_order() {
    let vals = [true, false, false, true, true];
    let mut g = WordBits::new(1, 5);
    for v in vals.iter() {
        g.push(*v);
    }
    for (i, v) in vals.iter().enumerate() {
        assert_eq!(g.get(i, 0), *v);
    }
}
