//! An interpreter for a small untyped lambda calculus with big integers,
//! `add`, `gt`, `if`, `true` and `false`.
//!
//! Terms are parsed into an arena of nodes, and evaluated by an explicit
//! stack machine whose environments live in an arena of their own.
use vstd::prelude::*;
use vstd::utf8::encode_utf8;
use vstd::string::StringSliceAdditionalSpecFns;
use crate::bigint::{BigInt, compare_words, digit_words, sum_words};
use crate::decimal::all_digits;
use crate::lexer::is_digits;

verus! {

/// What a value is, with numbers given by their words.
pub enum ValueModel {
    Bool(bool),
    Int(Seq<u64>),
    Add,
    Add2(Seq<u64>),
    Gt,
    Gt2(Seq<u64>),
    If,
    If2(bool),
    If3(bool, Box<ValueModel>),
    Lambda { var: usize, body: usize, env: Option<usize> },
}

/// A runtime value: a boolean, a number, a builtin applied to some of its
/// arguments, or a closure over an environment.
pub enum Value {
    Bool(bool),
    Int(BigInt),
    Add,
    Add2(BigInt),
    Gt,
    Gt2(BigInt),
    If,
    If2(bool),
    If3(bool, Box<Value>),
    Lambda { var: usize, body: usize, env: Option<usize> },
}

impl Value {
    pub open spec fn model(&self) -> ValueModel
        decreases self,
    {
        match self {
            Value::Bool(b) => ValueModel::Bool(*b),
            Value::Int(x) => ValueModel::Int(x@),
            Value::Add => ValueModel::Add,
            Value::Add2(x) => ValueModel::Add2(x@),
            Value::Gt => ValueModel::Gt,
            Value::Gt2(x) => ValueModel::Gt2(x@),
            Value::If => ValueModel::If,
            Value::If2(b) => ValueModel::If2(*b),
            Value::If3(b, v) => ValueModel::If3(*b, Box::new(v.model())),
            Value::Lambda { var, body, env } => ValueModel::Lambda {
                var: *var,
                body: *body,
                env: *env,
            },
        }
    }

    /// A copy of this value.
    pub fn duplicate(&self) -> (r: Value)
        ensures
            r.model() == self.model(),
        decreases self,
    {
        match self {
            Value::Bool(b) => Value::Bool(*b),
            Value::Int(x) => Value::Int(x.duplicate()),
            Value::Add => Value::Add,
            Value::Add2(x) => Value::Add2(x.duplicate()),
            Value::Gt => Value::Gt,
            Value::Gt2(x) => Value::Gt2(x.duplicate()),
            Value::If => Value::If,
            Value::If2(b) => Value::If2(*b),
            Value::If3(b, v) => Value::If3(*b, Box::new((**v).duplicate())),
            Value::Lambda { var, body, env } => Value::Lambda { var: *var, body: *body, env: *env },
        }
    }

    /// Whether this builtin takes `arg` (see `call_model`).
    pub fn can_call(&self, arg: &Value) -> (r: bool)
        ensures
            r == call_model(self.model(), arg.model()) is Some,
    {
        match self {
            Value::Add => match arg {
                Value::Int(_) => true,
                _ => false,
            },
            Value::Add2(x) => match arg {
                Value::Int(y) => x.word_count() != usize::MAX && y.word_count() != usize::MAX,
                _ => false,
            },
            Value::Gt => match arg {
                Value::Int(_) => true,
                _ => false,
            },
            Value::Gt2(_) => match arg {
                Value::Int(_) => true,
                _ => false,
            },
            Value::If => match arg {
                Value::Bool(_) => true,
                _ => false,
            },
            Value::If2(x) => *x,
            Value::If3(_, _) => true,
            _ => false,
        }
    }

    /// Applies a builtin value to an argument that it takes (see
    /// `can_call`); applying one to any other argument is an error of the
    /// program being run.
    pub fn call(self, arg: Value) -> (r: Value)
        requires
            call_model(self.model(), arg.model()) is Some,
        ensures
            call_model(self.model(), arg.model()) == Some(r.model()),
    {
        match self {
            Value::Add => match arg {
                Value::Int(x) => Value::Add2(x),
                _ => Value::Bool(false),
            },
            Value::Add2(x) => match arg {
                Value::Int(y) => {
                    let mut x = x;
                    x.add_to(y);
                    Value::Int(x)
                },
                _ => Value::Bool(false),
            },
            Value::Gt => match arg {
                Value::Int(x) => Value::Gt2(x),
                _ => Value::Bool(false),
            },
            Value::Gt2(x) => match arg {
                Value::Int(y) => Value::Bool(x.cmp(&y) > 0),
                _ => Value::Bool(false),
            },
            Value::If => match arg {
                Value::Bool(x) => Value::If2(x),
                _ => Value::Bool(false),
            },
            Value::If2(x) => Value::If3(x, Box::new(arg)),
            Value::If3(x, a1) => {
                if x {
                    *a1
                } else {
                    arg
                }
            },
            _ => Value::Bool(false),
        }
    }
}

/// What applying a builtin to an argument gives.
pub open spec fn call_model(f: ValueModel, a: ValueModel) -> Option<ValueModel> {
    match f {
        ValueModel::Add => match a {
            ValueModel::Int(x) => Some(ValueModel::Add2(x)),
            _ => None,
        },
        ValueModel::Add2(x) => match a {
            ValueModel::Int(y) => if x.len() >= usize::MAX || y.len() >= usize::MAX {
                None
            } else {
                Some(ValueModel::Int(sum_words(x, y)))
            },
            _ => None,
        },
        ValueModel::Gt => match a {
            ValueModel::Int(x) => Some(ValueModel::Gt2(x)),
            _ => None,
        },
        ValueModel::Gt2(x) => match a {
            ValueModel::Int(y) => Some(ValueModel::Bool(compare_words(x, y) > 0)),
            _ => None,
        },
        ValueModel::If => match a {
            ValueModel::Bool(x) => Some(ValueModel::If2(x)),
            _ => None,
        },
        ValueModel::If2(x) => if x {
            Some(ValueModel::If3(x, Box::new(a)))
        } else {
            None
        },
        ValueModel::If3(x, a1) => if x {
            Some(*a1)
        } else {
            Some(a)
        },
        _ => None,
    }
}

/// `gt` compares strictly: applied to numbers `x` and then `y` (without
/// zero words at the top), it gives `true` exactly when `x` is greater than
/// `y`; in particular `gt n n` is `false`.
pub proof fn lemma_gt_is_strict(x: Seq<u64>, y: Seq<u64>)
    requires
        crate::radix::no_top_zero(x),
        crate::radix::no_top_zero(y),
    ensures
        call_model(ValueModel::Gt, ValueModel::Int(x)) == Some(ValueModel::Gt2(x)),
        call_model(ValueModel::Gt2(x), ValueModel::Int(y)) == Some(
            ValueModel::Bool(crate::bigint::words_value(x) > crate::bigint::words_value(y)),
        ),
        call_model(ValueModel::Gt2(x), ValueModel::Int(x)) == Some(ValueModel::Bool(false)),
{
    crate::bigint::lemma_compare_words_order(x, y);
    crate::bigint::lemma_compare_words_order(x, x);
}

/// `add` adds: applied to numbers `x` and then `y` (of fewer than
/// `usize::MAX` words), it gives a number whose value is the sum of theirs.
pub proof fn lemma_add_sums(x: Seq<u64>, y: Seq<u64>)
    requires
        x.len() < usize::MAX,
        y.len() < usize::MAX,
    ensures
        call_model(ValueModel::Add, ValueModel::Int(x)) == Some(ValueModel::Add2(x)),
        call_model(ValueModel::Add2(x), ValueModel::Int(y)) matches Some(ValueModel::Int(w))
            && crate::bigint::words_value(w) == crate::bigint::words_value(x) + crate::bigint::words_value(y),
{
    crate::bigint::lemma_sum_words(x, y);
}

/// What a term node is.
pub enum AstModel {
    Abs { var: usize, body: usize },
    App { lhs: usize, rhs: usize },
    Var { id: usize },
    Const { val: ValueModel },
}

/// A term node; sub-terms are indices of earlier nodes in the same arena.
pub enum Ast {
    Abs { var: usize, body: usize },
    App { lhs: usize, rhs: usize },
    Var { id: usize },
    Const { val: Value },
}

impl Ast {
    pub open spec fn model(&self) -> AstModel {
        match self {
            Ast::Abs { var, body } => AstModel::Abs { var: *var, body: *body },
            Ast::App { lhs, rhs } => AstModel::App { lhs: *lhs, rhs: *rhs },
            Ast::Var { id } => AstModel::Var { id: *id },
            Ast::Const { val } => AstModel::Const { val: val.model() },
        }
    }
}

/// The nodes of an arena.
pub open spec fn nodes_model(nodes: Seq<Ast>) -> Seq<AstModel> {
    nodes.map_values(|a: Ast| a.model())
}

/// The names in scope, innermost last.
pub open spec fn scope_model(scope: Seq<(Vec<u8>, usize)>) -> Seq<(Seq<u8>, usize)> {
    scope.map_values(|p: (Vec<u8>, usize)| (p.0@, p.1))
}

/// The bytes of each token.
pub open spec fn tokens_model(toks: Seq<String>) -> Seq<Seq<u8>> {
    toks.map_values(|t: String| encode_utf8(t@))
}

/// The innermost binding of `name`.
pub open spec fn scope_lookup(scope: Seq<(Seq<u8>, usize)>, name: Seq<u8>) -> Option<usize>
    decreases scope.len(),
{
    if scope.len() == 0 {
        None
    } else if scope.last().0 == name {
        Some(scope.last().1)
    } else {
        scope_lookup(scope.drop_last(), name)
    }
}

/// The node for a name bound to `id`: the first five ids are the builtins
/// `add`, `gt`, `if`, `true` and `false`.
pub open spec fn name_node(id: usize) -> AstModel {
    if id == 0 {
        AstModel::Const { val: ValueModel::Add }
    } else if id == 1 {
        AstModel::Const { val: ValueModel::Gt }
    } else if id == 2 {
        AstModel::Const { val: ValueModel::If }
    } else if id == 3 {
        AstModel::Const { val: ValueModel::Bool(true) }
    } else if id == 4 {
        AstModel::Const { val: ValueModel::Bool(false) }
    } else {
        AstModel::Var { id }
    }
}

pub open spec fn tok_open() -> Seq<u8> {
    seq![0x28u8]
}

pub open spec fn tok_close() -> Seq<u8> {
    seq![0x29u8]
}

pub open spec fn tok_lam() -> Seq<u8> {
    seq![0x6cu8, 0x61u8, 0x6du8]
}

pub open spec fn tok_app() -> Seq<u8> {
    seq![0x61u8, 0x70u8, 0x70u8]
}

/// Parsing the term that starts at token `pos`: `( t )`, `lam x t`,
/// `app t t`, a decimal number, or a name in scope. The result is the arena
/// with the new nodes added, the index of the term's node, the position
/// after the term and the next fresh variable id; `None` where the tokens
/// do not form a term.
pub open spec fn parse_term(
    toks: Seq<Seq<u8>>,
    pos: int,
    scope: Seq<(Seq<u8>, usize)>,
    count: int,
    nodes: Seq<AstModel>,
) -> Option<(Seq<AstModel>, int, int, int)>
    decreases toks.len() - pos,
{
    if pos < 0 || pos >= toks.len() {
        None
    } else {
        let tok = toks[pos];
        if tok == tok_open() {
            match parse_term(toks, pos + 1, scope, count, nodes) {
                None => None,
                Some((n1, r, p1, c1)) => if p1 < 0 || p1 >= toks.len() || toks[p1] != tok_close() {
                    None
                } else {
                    Some((n1, r, p1 + 1, c1))
                },
            }
        } else if tok == tok_lam() {
            if pos + 1 >= toks.len() {
                None
            } else {
                let name = toks[pos + 1];
                match parse_term(toks, pos + 2, scope.push((name, count as usize)), count + 1, nodes) {
                    None => None,
                    Some((n1, b, p1, c1)) => Some(
                        (
                            n1.push(AstModel::Abs { var: count as usize, body: b as usize }),
                            n1.len() as int,
                            p1,
                            c1,
                        ),
                    ),
                }
            }
        } else if tok == tok_app() {
            match parse_term(toks, pos + 1, scope, count, nodes) {
                None => None,
                Some((n1, l, p1, c1)) => if p1 <= pos || p1 > toks.len() {
                    None
                } else {
                    match parse_term(toks, p1, scope, c1, n1) {
                        None => None,
                        Some((n2, r, p2, c2)) => Some(
                            (
                                n2.push(AstModel::App { lhs: l as usize, rhs: r as usize }),
                                n2.len() as int,
                                p2,
                                c2,
                            ),
                        ),
                    }
                },
            }
        } else if all_digits(tok) {
            Some(
                (
                    nodes.push(AstModel::Const { val: ValueModel::Int(digit_words(tok)) }),
                    nodes.len() as int,
                    pos + 1,
                    count,
                ),
            )
        } else {
            match scope_lookup(scope, tok) {
                None => None,
                Some(id) => Some((nodes.push(name_node(id)), nodes.len() as int, pos + 1, count)),
            }
        }
    }
}

/// Parsing advances, keeps the earlier nodes, and makes at most one fresh
/// variable per token.
pub proof fn lemma_parse_progress(
    toks: Seq<Seq<u8>>,
    pos: int,
    scope: Seq<(Seq<u8>, usize)>,
    count: int,
    nodes: Seq<AstModel>,
)
    ensures
        parse_term(toks, pos, scope, count, nodes) matches Some((n1, r, p1, c1)) ==> {
            &&& pos < p1 <= toks.len()
            &&& count <= c1 <= count + (p1 - pos)
            &&& nodes.len() <= r < n1.len()
            &&& n1.len() >= nodes.len()
            &&& n1.len() <= nodes.len() + (p1 - pos)
            &&& n1.subrange(0, nodes.len() as int) == nodes
        },
    decreases toks.len() - pos,
{
    if 0 <= pos < toks.len() {
        let tok = toks[pos];
        if tok == tok_open() {
            lemma_parse_progress(toks, pos + 1, scope, count, nodes);
        } else if tok == tok_lam() {
            if pos + 1 < toks.len() {
                let name = toks[pos + 1];
                lemma_parse_progress(
                    toks,
                    pos + 2,
                    scope.push((name, count as usize)),
                    count + 1,
                    nodes,
                );
                if let Some((n1, b, p1, c1)) = parse_term(
                    toks,
                    pos + 2,
                    scope.push((name, count as usize)),
                    count + 1,
                    nodes,
                ) {
                    let n2 = n1.push(AstModel::Abs { var: count as usize, body: b as usize });
                    assert(n2.subrange(0, nodes.len() as int) =~= n1.subrange(
                        0,
                        nodes.len() as int,
                    ));
                }
            }
        } else if tok == tok_app() {
            lemma_parse_progress(toks, pos + 1, scope, count, nodes);
            if let Some((n1, l, p1, c1)) = parse_term(toks, pos + 1, scope, count, nodes) {
                if p1 > pos && p1 <= toks.len() {
                    lemma_parse_progress(toks, p1, scope, c1, n1);
                    if let Some((n2, r, p2, c2)) = parse_term(toks, p1, scope, c1, n1) {
                        let n3 = n2.push(AstModel::App { lhs: l as usize, rhs: r as usize });
                        assert(n2.subrange(0, nodes.len() as int) =~= n2.subrange(
                            0,
                            n1.len() as int,
                        ).subrange(0, nodes.len() as int));
                        assert(n3.subrange(0, nodes.len() as int) =~= n2.subrange(
                            0,
                            nodes.len() as int,
                        ));
                    }
                }
            }
        } else {
            assert(nodes.push(AstModel::Var { id: 0 }).subrange(0, nodes.len() as int) =~= nodes);
            assert forall|m: AstModel| nodes.push(m).subrange(0, nodes.len() as int) =~= nodes by {}
        }
    }
}

/// The names of a scope, innermost last.
pub open spec fn scope_names(s: Seq<(Seq<u8>, usize)>) -> Seq<Seq<u8>> {
    s.map_values(|b: (Seq<u8>, usize)| b.0)
}

/// Whether a name is bound depends on the names in scope, not on their ids.
proof fn lemma_lookup_names(s1: Seq<(Seq<u8>, usize)>, s2: Seq<(Seq<u8>, usize)>, name: Seq<u8>)
    requires
        scope_names(s1) == scope_names(s2),
    ensures
        (scope_lookup(s1, name) is Some) == (scope_lookup(s2, name) is Some),
    decreases s1.len(),
{
    assert(s1.len() == scope_names(s1).len() && s2.len() == scope_names(s2).len());
    if s1.len() > 0 {
        assert(s1.last().0 == scope_names(s1)[s1.len() - 1]);
        assert(s2.last().0 == scope_names(s2)[s2.len() - 1]);
        assert(scope_names(s1.drop_last()) =~= scope_names(s1).drop_last());
        assert(scope_names(s2.drop_last()) =~= scope_names(s2).drop_last());
        lemma_lookup_names(s1.drop_last(), s2.drop_last(), name);
    }
}

/// Whether the tokens at `pos` form a term, and where it ends, depend on
/// the names in scope alone: not on their ids, the next fresh id or the
/// nodes built so far.
proof fn lemma_parse_shape(
    toks: Seq<Seq<u8>>,
    pos: int,
    s1: Seq<(Seq<u8>, usize)>,
    c1: int,
    n1: Seq<AstModel>,
    s2: Seq<(Seq<u8>, usize)>,
    c2: int,
    n2: Seq<AstModel>,
)
    requires
        scope_names(s1) == scope_names(s2),
    ensures
        (parse_term(toks, pos, s1, c1, n1) is Some) == (parse_term(toks, pos, s2, c2, n2) is Some),
        parse_term(toks, pos, s1, c1, n1) is Some ==> parse_term(toks, pos, s1, c1, n1).unwrap().2 == parse_term(
            toks,
            pos,
            s2,
            c2,
            n2,
        ).unwrap().2,
    decreases toks.len() - pos,
{
    if 0 <= pos < toks.len() {
        let tok = toks[pos];
        if tok == tok_open() {
            lemma_parse_shape(toks, pos + 1, s1, c1, n1, s2, c2, n2);
        } else if tok == tok_lam() {
            if pos + 1 < toks.len() {
                let name = toks[pos + 1];
                assert(scope_names(s1.push((name, c1 as usize))) =~= scope_names(s1).push(name));
                assert(scope_names(s2.push((name, c2 as usize))) =~= scope_names(s2).push(name));
                lemma_parse_shape(toks, pos + 2, s1.push((name, c1 as usize)), c1 + 1, n1, s2.push((name, c2 as usize)), c2 + 1, n2);
            }
        } else if tok == tok_app() {
            lemma_parse_shape(toks, pos + 1, s1, c1, n1, s2, c2, n2);
            if let Some((m1, l1, p1, d1)) = parse_term(toks, pos + 1, s1, c1, n1) {
                let (m2, l2, q1, d2) = parse_term(toks, pos + 1, s2, c2, n2).unwrap();
                if p1 > pos && p1 <= toks.len() {
                    lemma_parse_shape(toks, p1, s1, d1, m1, s2, d2, m2);
                }
            }
        } else if !all_digits(tok) {
            lemma_lookup_names(s1, s2, tok);
        }
    }
}

/// Where the term at token `pos` ends, with the names of `varmap` in scope;
/// `None` where the tokens do not form a term (see `parse_term`).
pub fn term_end(toks: &Vec<String>, pos: usize, varmap: &mut Vec<(Vec<u8>, usize)>) -> (r: Option<usize>)
    requires
        pos <= toks@.len(),
    ensures
        scope_model(final(varmap)@) == scope_model(old(varmap)@),
        forall|c: int, nodes: Seq<AstModel>|
            match #[trigger] parse_term(tokens_model(toks@), pos as int, scope_model(old(varmap)@), c, nodes) {
                None => r is None,
                Some((_, _, p1, _)) => r == Some(p1 as usize),
            },
    decreases toks@.len() - pos,
{
    let ghost tm = tokens_model(toks@);
    let ghost sc = scope_model(varmap@);
    if pos >= toks.len() {
        return None;
    }
    let tb = toks[pos].as_str().as_bytes();
    proof {
        assert(tb@ == tm[pos as int]);
    }
    if is_tok(tb, 0x28, 0, 0, 1) {
        proof {
            assert(tb@ == tok_open());
        }
        let p1 = match term_end(toks, pos + 1, varmap) {
            None => {
                proof {
                    assert forall|c: int, nodes: Seq<AstModel>| #[trigger] parse_term(tm, pos as int, sc, c, nodes) is None by {
                        assert(parse_term(tm, pos + 1, sc, c, nodes) is None);
                    }
                }
                return None;
            },
            Some(x) => x,
        };
        proof {
            lemma_parse_progress(tm, pos + 1, sc, 0, Seq::empty());
            assert(parse_term(tm, pos + 1, sc, 0, Seq::empty()) is Some);
        }
        if p1 >= toks.len() {
            proof {
                assert forall|c: int, nodes: Seq<AstModel>| #[trigger] parse_term(tm, pos as int, sc, c, nodes) is None by {
                    lemma_parse_shape(tm, pos + 1, sc, 0, Seq::empty(), sc, c, nodes);
                    assert(parse_term(tm, pos + 1, sc, c, nodes).unwrap().2 == p1);
                }
            }
            return None;
        }
        let cb = toks[p1].as_str().as_bytes();
        proof {
            assert(cb@ == tm[p1 as int]);
        }
        if !is_tok(cb, 0x29, 0, 0, 1) {
            proof {
                assert forall|c: int, nodes: Seq<AstModel>| #[trigger] parse_term(tm, pos as int, sc, c, nodes) is None by {
                    lemma_parse_shape(tm, pos + 1, sc, 0, Seq::empty(), sc, c, nodes);
                    assert(parse_term(tm, pos + 1, sc, c, nodes).unwrap().2 == p1);
                }
            }
            return None;
        }
        proof {
            assert forall|c: int, nodes: Seq<AstModel>|
                match #[trigger] parse_term(tm, pos as int, sc, c, nodes) {
                    None => false,
                    Some((_, _, q, _)) => q == p1 + 1,
                } by {
                lemma_parse_shape(tm, pos + 1, sc, 0, Seq::empty(), sc, c, nodes);
                assert(parse_term(tm, pos + 1, sc, c, nodes).unwrap().2 == p1);
            }
        }
        return Some(p1 + 1);
    }
    proof {
        assert(tb@ != tok_open());
    }
    if is_tok(tb, 0x6c, 0x61, 0x6d, 3) {
        proof {
            assert(tb@ == tok_lam());
        }
        if pos + 1 >= toks.len() {
            return None;
        }
        let name = toks[pos + 1].as_str().as_bytes();
        proof {
            assert(name@ == tm[pos + 1]);
        }
        let owned = vstd::slice::slice_to_vec(name);
        varmap.push((owned, 0));
        proof {
            assert(scope_model(varmap@) =~= sc.push((name@, 0usize)));
        }
        let body = term_end(toks, pos + 2, varmap);
        let ghost inner = varmap@;
        let _ = varmap.pop();
        proof {
            assert(scope_model(varmap@) =~= scope_model(inner).drop_last());
            assert(scope_model(varmap@) =~= sc);
            assert forall|c: int, nodes: Seq<AstModel>|
                match #[trigger] parse_term(tm, pos as int, sc, c, nodes) {
                    None => body is None,
                    Some((_, _, p1, _)) => body == Some(p1 as usize),
                } by {
                assert(scope_names(sc.push((name@, 0usize))) =~= scope_names(sc).push(name@));
                assert(scope_names(sc.push((name@, c as usize))) =~= scope_names(sc).push(name@));
                lemma_parse_shape(tm, pos + 2, sc.push((name@, 0usize)), 0, Seq::empty(), sc.push((name@, c as usize)), c + 1, nodes);
                assert(parse_term(tm, pos + 2, sc.push((name@, 0usize)), 0, Seq::empty()) is Some ==> body == Some(
                    parse_term(tm, pos + 2, sc.push((name@, 0usize)), 0, Seq::empty()).unwrap().2 as usize,
                ));
            }
        }
        return body;
    }
    proof {
        assert(tb@ != tok_lam());
    }
    if is_tok(tb, 0x61, 0x70, 0x70, 3) {
        proof {
            assert(tb@ == tok_app());
        }
        let p1 = match term_end(toks, pos + 1, varmap) {
            None => {
                proof {
                    assert forall|c: int, nodes: Seq<AstModel>| #[trigger] parse_term(tm, pos as int, sc, c, nodes) is None by {
                        assert(parse_term(tm, pos + 1, sc, c, nodes) is None);
                    }
                }
                return None;
            },
            Some(x) => x,
        };
        proof {
            lemma_parse_progress(tm, pos + 1, sc, 0, Seq::empty());
            assert(parse_term(tm, pos + 1, sc, 0, Seq::empty()) is Some);
        }
        let p2 = term_end(toks, p1, varmap);
        proof {
            assert forall|c: int, nodes: Seq<AstModel>|
                match #[trigger] parse_term(tm, pos as int, sc, c, nodes) {
                    None => p2 is None,
                    Some((_, _, q, _)) => p2 == Some(q as usize),
                } by {
                lemma_parse_shape(tm, pos + 1, sc, 0, Seq::empty(), sc, c, nodes);
                let (m1, _, q1, d1) = parse_term(tm, pos + 1, sc, c, nodes).unwrap();
                assert(q1 == p1);
                assert(parse_term(tm, p1 as int, sc, d1, m1) is None ==> p2 is None);
            }
        }
        return p2;
    }
    proof {
        assert(tb@ != tok_app());
    }
    let tok_str = toks[pos].as_str();
    if is_digits(tok_str) {
        return Some(pos + 1);
    }
    match lookup_name(varmap, tb) {
        None => None,
        Some(_) => Some(pos + 1),
    }
}

/// Whether the bytes are exactly `lit`.
fn bytes_equal(a: &[u8], lit: &[u8]) -> (r: bool)
    ensures
        r == (a@ == lit@),
{
    if a.len() != lit.len() {
        return false;
    }
    let mut i: usize = 0;
    while i < a.len()
        invariant
            a@.len() == lit@.len(),
            i <= a@.len(),
            forall|j: int| 0 <= j < i ==> a@[j] == lit@[j],
        decreases a@.len() - i,
    {
        if a[i] != lit[i] {
            return false;
        }
        i = i + 1;
    }
    proof {
        assert(a@ =~= lit@);
    }
    true
}

fn is_tok(a: &[u8], b0: u8, b1: u8, b2: u8, n: usize) -> (r: bool)
    requires
        1 <= n <= 3,
    ensures
        r == (a@ == (if n == 1 {
            seq![b0]
        } else if n == 2 {
            seq![b0, b1]
        } else {
            seq![b0, b1, b2]
        })),
{
    if a.len() != n {
        return false;
    }
    if a[0] != b0 {
        return false;
    }
    if n >= 2 && a[1] != b1 {
        return false;
    }
    if n >= 3 && a[2] != b2 {
        return false;
    }
    proof {
        if n == 1 {
            assert(a@ =~= seq![b0]);
        } else if n == 2 {
            assert(a@ =~= seq![b0, b1]);
        } else {
            assert(a@ =~= seq![b0, b1, b2]);
        }
    }
    true
}

/// The innermost binding of `name` in `varmap`.
fn lookup_name(varmap: &Vec<(Vec<u8>, usize)>, name: &[u8]) -> (r: Option<usize>)
    ensures
        r == scope_lookup(scope_model(varmap@), name@),
{
    let ghost sc = scope_model(varmap@);
    let mut k: usize = varmap.len();
    proof {
        assert(sc.subrange(0, k as int) =~= sc);
    }
    while k > 0
        invariant
            k <= varmap@.len(),
            sc == scope_model(varmap@),
            scope_lookup(sc, name@) == scope_lookup(sc.subrange(0, k as int), name@),
        decreases k,
    {
        let entry = &varmap[k - 1];
        proof {
            let sub = sc.subrange(0, k as int);
            assert(sub.last() == sc[k - 1]);
            assert(sub.drop_last() =~= sc.subrange(0, k - 1));
        }
        if bytes_equal(entry.0.as_slice(), name) {
            return Some(entry.1);
        }
        k = k - 1;
    }
    proof {
        assert(sc.subrange(0, 0) =~= Seq::<(Seq<u8>, usize)>::empty());
    }
    None
}

/// Builds term arenas; `count` is the next fresh variable id.
pub struct AstManager {
    count: usize,
    nodes: Vec<Ast>,
}

impl AstManager {
    /// The next fresh variable id.
    pub closed spec fn count_spec(&self) -> usize {
        self.count
    }

    /// The nodes built so far.
    pub closed spec fn nodes_spec(&self) -> Seq<AstModel> {
        nodes_model(self.nodes@)
    }

    /// A manager with no nodes whose first variable id is 0.
    pub fn new() -> (r: Self)
        ensures
            r.count_spec() == 0,
            r.nodes_spec() == Seq::<AstModel>::empty(),
    {
        let r = Self { count: 0, nodes: Vec::new() };
        proof {
            assert(r.nodes_spec() =~= Seq::<AstModel>::empty());
        }
        r
    }

    /// Adds a node and returns its index.
    pub fn alloc_node(&mut self, ast: Ast) -> (i: usize)
        ensures
            i == old(self).nodes_spec().len(),
            final(self).nodes_spec() == old(self).nodes_spec().push(ast.model()),
            final(self).count_spec() == old(self).count_spec(),
    {
        let i = self.nodes.len();
        let ghost m = ast.model();
        self.nodes.push(ast);
        proof {
            assert(self.nodes_spec() =~= old(self).nodes_spec().push(m));
        }
        i
    }

    /// Binds `name` to a fresh variable id in `varmap` and returns the id.
    pub fn new_var(&mut self, name: &[u8], varmap: &mut Vec<(Vec<u8>, usize)>) -> (id: usize)
        requires
            old(self).count_spec() < usize::MAX,
        ensures
            id == old(self).count_spec(),
            final(self).count_spec() == id + 1,
            final(self).nodes_spec() == old(self).nodes_spec(),
            scope_model(final(varmap)@) == scope_model(old(varmap)@).push((name@, id)),
    {
        let id = self.count;
        self.count = self.count + 1;
        let owned = vstd::slice::slice_to_vec(name);
        varmap.push((owned, id));
        proof {
            assert(scope_model(varmap@) =~= scope_model(old(varmap)@).push((name@, id)));
        }
        id
    }

    /// Parses the term that starts at token `pos` with `varmap` in scope,
    /// adding its nodes; returns its node and the position after it. The
    /// tokens there must form a term (`term_end` tells whether they do).
    pub fn parse(&mut self, toks: &Vec<String>, pos: usize, varmap: &mut Vec<(Vec<u8>, usize)>) -> (r: (usize, usize))
        requires
            pos <= toks@.len(),
            old(self).count_spec() + (toks@.len() - pos) < usize::MAX,
            old(self).nodes_spec().len() + (toks@.len() - pos) < usize::MAX,
            parse_term(
                tokens_model(toks@),
                pos as int,
                scope_model(old(varmap)@),
                old(self).count_spec() as int,
                old(self).nodes_spec(),
            ) is Some,
        ensures
            scope_model(final(varmap)@) == scope_model(old(varmap)@),
            ({
                let (n1, root, p1, c1) = parse_term(
                    tokens_model(toks@),
                    pos as int,
                    scope_model(old(varmap)@),
                    old(self).count_spec() as int,
                    old(self).nodes_spec(),
                ).unwrap();
                &&& r == (root as usize, p1 as usize)
                &&& final(self).nodes_spec() == n1
                &&& final(self).count_spec() == c1
            }),
        decreases toks@.len() - pos,
    {
        let ghost tm = tokens_model(toks@);
        let ghost sc = scope_model(varmap@);
        let ghost c0 = self.count as int;
        let ghost n0 = self.nodes_spec();
        let ntoks = toks.len();
        proof {
            assert(pos < toks@.len());
        }
        let tb = toks[pos].as_str().as_bytes();
        proof {
            assert(tb@ == tm[pos as int]);
        }
        if is_tok(tb, 0x28, 0, 0, 1) {
            proof {
                assert(tb@ == tok_open());
                lemma_parse_progress(tm, pos + 1, sc, c0, n0);
            }
            let (e, p1) = self.parse(toks, pos + 1, varmap);
            proof {
                assert(p1 < ntoks);
            }
            return (e, p1 + 1);
        }
        proof {
            assert(tb@ != tok_open());
        }
        if is_tok(tb, 0x6c, 0x61, 0x6d, 3) {
            proof {
                assert(tb@ == tok_lam());
            }
            let name = toks[pos + 1].as_str().as_bytes();
            proof {
                assert(name@ == tm[pos + 1]);
            }
            let var = self.new_var(name, varmap);
            let (b, p1) = self.parse(toks, pos + 2, varmap);
            let ghost inner = varmap@;
            let _ = varmap.pop();
            proof {
                assert(scope_model(varmap@) =~= scope_model(inner).drop_last());
                assert(scope_model(varmap@) =~= sc);
            }
            let i = self.alloc_node(Ast::Abs { var, body: b });
            return (i, p1);
        }
        proof {
            assert(tb@ != tok_lam());
        }
        if is_tok(tb, 0x61, 0x70, 0x70, 3) {
            proof {
                assert(tb@ == tok_app());
                lemma_parse_progress(tm, pos + 1, sc, c0, n0);
            }
            let (l, p1) = self.parse(toks, pos + 1, varmap);
            proof {
                let (n1, _, _, c1) = parse_term(tm, pos + 1, sc, c0, n0).unwrap();
                lemma_parse_progress(tm, p1 as int, sc, c1, n1);
            }
            let (r, p2) = self.parse(toks, p1, varmap);
            let i = self.alloc_node(Ast::App { lhs: l, rhs: r });
            return (i, p2);
        }
        proof {
            assert(tb@ != tok_app());
        }
        let tok_str = toks[pos].as_str();
        if is_digits(tok_str) {
            let n = BigInt::parse_digits(tok_str);
            let i = self.alloc_node(Ast::Const { val: Value::Int(n) });
            return (i, pos + 1);
        }
        // a name: its innermost binding, which the requires guarantees
        let id = match lookup_name(varmap, tb) {
            Some(id) => id,
            None => {
                proof {
                    assert(false);
                }
                0
            },
        };
        let node = if id == 0 {
            Ast::Const { val: Value::Add }
        } else if id == 1 {
            Ast::Const { val: Value::Gt }
        } else if id == 2 {
            Ast::Const { val: Value::If }
        } else if id == 3 {
            Ast::Const { val: Value::Bool(true) }
        } else if id == 4 {
            Ast::Const { val: Value::Bool(false) }
        } else {
            Ast::Var { id }
        };
        let i = self.alloc_node(node);
        (i, pos + 1)
    }
}

/// What a machine command is.
pub enum CmdModel {
    Eval { ast: usize, env: Option<usize> },
    Eval2 { rhs: usize, env: Option<usize> },
    Eval3(ValueModel),
    Return(ValueModel),
}

/// A command of the evaluation machine: evaluate a node in an environment;
/// evaluate the argument of an application once its function is known;
/// apply a function value once its argument is known; or hand a value back.
pub enum EvalState {
    Eval { ast: usize, env: Option<usize> },
    Eval2 { rhs: usize, env: Option<usize> },
    Eval3(Value),
    Return(Value),
}

impl EvalState {
    pub open spec fn model(&self) -> CmdModel {
        match self {
            EvalState::Eval { ast, env } => CmdModel::Eval { ast: *ast, env: *env },
            EvalState::Eval2 { rhs, env } => CmdModel::Eval2 { rhs: *rhs, env: *env },
            EvalState::Eval3(v) => CmdModel::Eval3(v.model()),
            EvalState::Return(v) => CmdModel::Return(v.model()),
        }
    }
}

/// What an environment node is.
pub struct EnvModel {
    pub var: usize,
    pub val: ValueModel,
    pub parent: Option<usize>,
}

/// One binding of an environment; the rest of the environment is `parent`.
pub struct EnvNode {
    pub var: usize,
    pub val: Value,
    pub parent: Option<usize>,
}

impl EnvNode {
    pub open spec fn model(&self) -> EnvModel {
        EnvModel { var: self.var, val: self.val.model(), parent: self.parent }
    }
}

pub open spec fn stack_model(s: Seq<EvalState>) -> Seq<CmdModel> {
    s.map_values(|c: EvalState| c.model())
}

pub open spec fn envs_model(e: Seq<EnvNode>) -> Seq<EnvModel> {
    e.map_values(|n: EnvNode| n.model())
}

/// The value bound to `id` in environment `env`: the nearest binding along
/// the parent chain, where every parent lies before its child.
pub open spec fn env_lookup(envs: Seq<EnvModel>, env: Option<usize>, id: usize) -> Option<ValueModel>
    decreases envs.len(),
{
    match env {
        None => None,
        Some(i) => if i >= envs.len() {
            None
        } else if envs[i as int].var == id {
            Some(envs[i as int].val)
        } else {
            env_lookup(envs.take(i as int), envs[i as int].parent, id)
        },
    }
}

/// The result of one machine step.
pub enum StepModel {
    Next(Seq<CmdModel>, Seq<EnvModel>),
    Finished(ValueModel),
    Stuck,
}

/// One step of the machine on the command stack (top last) and the
/// environment arena.
pub open spec fn step(nodes: Seq<AstModel>, stack: Seq<CmdModel>, envs: Seq<EnvModel>) -> StepModel {
    if stack.len() == 0 {
        StepModel::Stuck
    } else {
        let rest = stack.drop_last();
        match stack.last() {
            CmdModel::Eval { ast, env } => if ast >= nodes.len() {
                StepModel::Stuck
            } else {
                match nodes[ast as int] {
                    AstModel::Abs { var, body } => StepModel::Next(
                        rest.push(CmdModel::Return(ValueModel::Lambda { var, body, env })),
                        envs,
                    ),
                    AstModel::App { lhs, rhs } => StepModel::Next(
                        rest.push(CmdModel::Eval2 { rhs, env }).push(CmdModel::Eval { ast: lhs, env }),
                        envs,
                    ),
                    AstModel::Var { id } => match env_lookup(envs, env, id) {
                        None => StepModel::Stuck,
                        Some(v) => StepModel::Next(rest.push(CmdModel::Return(v)), envs),
                    },
                    AstModel::Const { val } => StepModel::Next(rest.push(CmdModel::Return(val)), envs),
                }
            },
            CmdModel::Return(v) => if rest.len() == 0 {
                StepModel::Finished(v)
            } else {
                let rest2 = rest.drop_last();
                match rest.last() {
                    CmdModel::Eval2 { rhs, env } => if v == ValueModel::If2(false) {
                        StepModel::Next(
                            rest2.push(CmdModel::Return(ValueModel::If3(false, Box::new(ValueModel::Add)))),
                            envs,
                        )
                    } else {
                        match v {
                            ValueModel::If3(true, val) => StepModel::Next(
                                rest2.push(CmdModel::Return(*val)),
                                envs,
                            ),
                            _ => StepModel::Next(
                                rest2.push(CmdModel::Eval3(v)).push(CmdModel::Eval { ast: rhs, env }),
                                envs,
                            ),
                        }
                    },
                    CmdModel::Eval3(e1) => match e1 {
                        ValueModel::Lambda { var, body, env } => StepModel::Next(
                            rest2.push(CmdModel::Eval { ast: body, env: Some(envs.len() as usize) }),
                            envs.push(EnvModel { var, val: v, parent: env }),
                        ),
                        _ => match call_model(e1, v) {
                            None => StepModel::Stuck,
                            Some(r) => StepModel::Next(rest2.push(CmdModel::Return(r)), envs),
                        },
                    },
                    _ => StepModel::Stuck,
                }
            },
            _ => StepModel::Stuck,
        }
    }
}

/// How a run of the machine ends.
pub enum OutcomeModel {
    Done(ValueModel),
    Stuck,
    OutOfFuel,
}

/// Runs the machine for at most `fuel` steps.
pub open spec fn run(nodes: Seq<AstModel>, stack: Seq<CmdModel>, envs: Seq<EnvModel>, fuel: nat) -> OutcomeModel
    decreases fuel,
{
    if fuel == 0 {
        OutcomeModel::OutOfFuel
    } else {
        match step(nodes, stack, envs) {
            StepModel::Finished(v) => OutcomeModel::Done(v),
            StepModel::Stuck => OutcomeModel::Stuck,
            StepModel::Next(s2, e2) => run(nodes, s2, e2, (fuel - 1) as nat),
        }
    }
}

/// More fuel does not change an evaluation that ended without running out:
/// it ends the same way.
pub proof fn lemma_run_more_fuel(nodes: Seq<AstModel>, stack: Seq<CmdModel>, envs: Seq<EnvModel>, f1: nat, f2: nat)
    requires
        f1 <= f2,
        run(nodes, stack, envs, f1) != OutcomeModel::OutOfFuel,
    ensures
        run(nodes, stack, envs, f2) == run(nodes, stack, envs, f1),
    decreases f1,
{
    if f1 > 0 {
        match step(nodes, stack, envs) {
            StepModel::Next(s2, e2) => {
                lemma_run_more_fuel(nodes, s2, e2, (f1 - 1) as nat, (f2 - 1) as nat);
            },
            _ => {},
        }
    }
}

/// Where the machine, from `stack` and `envs`, comes within `fuel` steps to
/// a stack holding a single returned value: that value, the environment
/// arena then, and the fuel left.
pub open spec fn settle(nodes: Seq<AstModel>, stack: Seq<CmdModel>, envs: Seq<EnvModel>, fuel: nat) -> Option<
    (ValueModel, Seq<EnvModel>, nat),
>
    decreases fuel,
{
    if fuel == 0 {
        None
    } else if stack.len() == 1 && stack[0] is Return {
        Some((stack[0]->Return_0, envs, fuel))
    } else {
        match step(nodes, stack, envs) {
            StepModel::Next(s2, e2) => settle(nodes, s2, e2, (fuel - 1) as nat),
            _ => None,
        }
    }
}

/// Settling uses no more fuel than it has.
proof fn lemma_settle_fuel(nodes: Seq<AstModel>, stack: Seq<CmdModel>, envs: Seq<EnvModel>, fuel: nat)
    requires
        settle(nodes, stack, envs, fuel) is Some,
    ensures
        1 <= settle(nodes, stack, envs, fuel).unwrap().2 <= fuel,
    decreases fuel,
{
    if !(stack.len() == 1 && stack[0] is Return) {
        match step(nodes, stack, envs) {
            StepModel::Next(s2, e2) => lemma_settle_fuel(nodes, s2, e2, (fuel - 1) as nat),
            _ => {},
        }
    }
}

/// A run that ends with a value settles on it, within the same fuel.
pub proof fn lemma_run_settles(nodes: Seq<AstModel>, stack: Seq<CmdModel>, envs: Seq<EnvModel>, fuel: nat)
    requires
        run(nodes, stack, envs, fuel) is Done,
    ensures
        settle(nodes, stack, envs, fuel) is Some,
        settle(nodes, stack, envs, fuel).unwrap().0 == run(nodes, stack, envs, fuel)->Done_0,
    decreases fuel,
{
    if stack.len() == 1 && stack[0] is Return {
    } else {
        match step(nodes, stack, envs) {
            StepModel::Next(s2, e2) => lemma_run_settles(nodes, s2, e2, (fuel - 1) as nat),
            StepModel::Finished(v) => {
                assert(stack.len() > 0);
                assert(stack.drop_last().len() == 0);
            },
            _ => {},
        }
    }
}

/// A run that settles ends with the settled value.
pub proof fn lemma_settle_run(nodes: Seq<AstModel>, stack: Seq<CmdModel>, envs: Seq<EnvModel>, fuel: nat)
    requires
        settle(nodes, stack, envs, fuel) is Some,
    ensures
        run(nodes, stack, envs, fuel) == OutcomeModel::Done(settle(nodes, stack, envs, fuel).unwrap().0),
    decreases fuel,
{
    if stack.len() == 1 && stack[0] is Return {
        assert(stack.drop_last() =~= Seq::<CmdModel>::empty());
    } else {
        match step(nodes, stack, envs) {
            StepModel::Next(s2, e2) => lemma_settle_run(nodes, s2, e2, (fuel - 1) as nat),
            _ => {},
        }
    }
}

/// Commands below the top of the stack do not change what a step does
/// above them.
proof fn lemma_step_frame(nodes: Seq<AstModel>, pre: Seq<CmdModel>, stack: Seq<CmdModel>, envs: Seq<EnvModel>)
    requires
        step(nodes, stack, envs) is Next,
    ensures
        ({
            let (s2, e2) = match step(nodes, stack, envs) {
                StepModel::Next(s2, e2) => (s2, e2),
                _ => (stack, envs),
            };
            step(nodes, pre + stack, envs) == StepModel::Next(pre + s2, e2)
        }),
{
    let full = pre + stack;
    let rest = stack.drop_last();
    assert(stack.len() > 0);
    assert(full.drop_last() =~= pre + rest);
    assert(full.last() == stack.last());
    assert forall|x: CmdModel| #[trigger] (pre + rest).push(x) =~= pre + rest.push(x) by {}
    assert forall|x: CmdModel, y: CmdModel| #[trigger] (pre + rest).push(x).push(y) =~= pre + rest.push(x).push(y) by {}
    if let CmdModel::Return(v) = stack.last() {
        assert(rest.len() > 0);
        let rest2 = rest.drop_last();
        assert((pre + rest).drop_last() =~= pre + rest2);
        assert((pre + rest).last() == rest.last());
        assert forall|x: CmdModel| #[trigger] (pre + rest2).push(x) =~= pre + rest2.push(x) by {}
        assert forall|x: CmdModel, y: CmdModel| #[trigger] (pre + rest2).push(x).push(y) =~= pre + rest2.push(x).push(y) by {}
    }
}

/// A sub-computation that settles, run on top of other commands, leaves
/// its value on top of them.
proof fn lemma_settle_frame(
    nodes: Seq<AstModel>,
    pre: Seq<CmdModel>,
    stack: Seq<CmdModel>,
    envs: Seq<EnvModel>,
    fuel: nat,
    g: nat,
)
    requires
        pre.len() > 0,
        settle(nodes, stack, envs, fuel) is Some,
        g >= fuel - settle(nodes, stack, envs, fuel).unwrap().2,
    ensures
        run(nodes, pre + stack, envs, g) == run(
            nodes,
            pre.push(CmdModel::Return(settle(nodes, stack, envs, fuel).unwrap().0)),
            settle(nodes, stack, envs, fuel).unwrap().1,
            (g - (fuel - settle(nodes, stack, envs, fuel).unwrap().2)) as nat,
        ),
    decreases fuel,
{
    lemma_settle_fuel(nodes, stack, envs, fuel);
    if stack.len() == 1 && stack[0] is Return {
        assert(pre + stack =~= pre.push(CmdModel::Return(stack[0]->Return_0)));
    } else {
        match step(nodes, stack, envs) {
            StepModel::Next(s2, e2) => {
                lemma_settle_fuel(nodes, s2, e2, (fuel - 1) as nat);
                lemma_step_frame(nodes, pre, stack, envs);
                lemma_settle_frame(nodes, pre, s2, e2, (fuel - 1) as nat, (g - 1) as nat);
            },
            _ => {},
        }
    }
}

/// One step of a run.
proof fn lemma_run_step(nodes: Seq<AstModel>, stack: Seq<CmdModel>, envs: Seq<EnvModel>, fuel: nat, s2: Seq<CmdModel>, e2: Seq<EnvModel>)
    requires
        fuel > 0,
        step(nodes, stack, envs) == StepModel::Next(s2, e2),
    ensures
        run(nodes, stack, envs, fuel) == run(nodes, s2, e2, (fuel - 1) as nat),
{
}

/// Node `r` is `app (app (app if c) a) b`.
pub open spec fn if_term(nodes: Seq<AstModel>, r: usize, l1: usize, l2: usize, i: usize, c: usize, a: usize, b: usize) -> bool {
    &&& r < nodes.len() && l1 < nodes.len() && l2 < nodes.len() && i < nodes.len()
    &&& nodes[r as int] == AstModel::App { lhs: l1, rhs: b }
    &&& nodes[l1 as int] == AstModel::App { lhs: l2, rhs: a }
    &&& nodes[l2 as int] == AstModel::App { lhs: i, rhs: c }
    &&& nodes[i as int] == AstModel::Const { val: ValueModel::If }
}

/// `app (app (app if c) a) b` where `c` comes to `false`: the value is
/// what `b` comes to, whatever `a` is; `a` is never evaluated (it may be
/// stuck or never end).
pub proof fn lemma_if_false_takes_else(
    nodes: Seq<AstModel>,
    r: usize,
    l1: usize,
    l2: usize,
    i: usize,
    c: usize,
    a: usize,
    b: usize,
    fc: nat,
    fb: nat,
    e1: Seq<EnvModel>,
)
    requires
        if_term(nodes, r, l1, l2, i, c, a, b),
        settle(nodes, seq![CmdModel::Eval { ast: c, env: None }], Seq::<EnvModel>::empty(), fc) matches Some(
            (ValueModel::Bool(false), e, _),
        ) && e == e1,
        settle(nodes, seq![CmdModel::Eval { ast: b, env: None }], e1, fb) is Some,
    ensures
        run(nodes, seq![CmdModel::Eval { ast: r, env: None }], Seq::<EnvModel>::empty(), fc + fb + 10) == OutcomeModel::Done(
            settle(nodes, seq![CmdModel::Eval { ast: b, env: None }], e1, fb).unwrap().0,
        ),
{
    let e0 = Seq::<EnvModel>::empty();
    let f = fc + fb + 10;
    let eb = CmdModel::Eval2 { rhs: b, env: None };
    let ea = CmdModel::Eval2 { rhs: a, env: None };
    let ec = CmdModel::Eval2 { rhs: c, env: None };
    let s0 = seq![CmdModel::Eval { ast: r, env: None }];
    let s1 = seq![eb, CmdModel::Eval { ast: l1, env: None }];
    let s2 = seq![eb, ea, CmdModel::Eval { ast: l2, env: None }];
    let s3 = seq![eb, ea, ec, CmdModel::Eval { ast: i, env: None }];
    let s4 = seq![eb, ea, ec, CmdModel::Return(ValueModel::If)];
    let pre1 = seq![eb, ea, CmdModel::Eval3(ValueModel::If)];
    let s5 = pre1 + seq![CmdModel::Eval { ast: c, env: None }];
    assert(s0.drop_last() =~= Seq::<CmdModel>::empty());
    assert(step(nodes, s0, e0) == StepModel::Next(s1, e0)) by {
        assert(Seq::<CmdModel>::empty().push(eb).push(CmdModel::Eval { ast: l1, env: None }) =~= s1);
    }
    assert(step(nodes, s1, e0) == StepModel::Next(s2, e0)) by {
        assert(s1.drop_last() =~= seq![eb]);
        assert(seq![eb].push(ea).push(CmdModel::Eval { ast: l2, env: None }) =~= s2);
    }
    assert(step(nodes, s2, e0) == StepModel::Next(s3, e0)) by {
        assert(s2.drop_last() =~= seq![eb, ea]);
        assert(seq![eb, ea].push(ec).push(CmdModel::Eval { ast: i, env: None }) =~= s3);
    }
    assert(step(nodes, s3, e0) == StepModel::Next(s4, e0)) by {
        assert(s3.drop_last() =~= seq![eb, ea, ec]);
        assert(seq![eb, ea, ec].push(CmdModel::Return(ValueModel::If)) =~= s4);
    }
    assert(step(nodes, s4, e0) == StepModel::Next(s5, e0)) by {
        assert(s4.drop_last() =~= seq![eb, ea, ec]);
        assert(seq![eb, ea, ec].drop_last() =~= seq![eb, ea]);
        assert(seq![eb, ea].push(CmdModel::Eval3(ValueModel::If)).push(CmdModel::Eval { ast: c, env: None }) =~= s5);
    }
    lemma_run_step(nodes, s0, e0, f, s1, e0);
    lemma_run_step(nodes, s1, e0, (f - 1) as nat, s2, e0);
    lemma_run_step(nodes, s2, e0, (f - 2) as nat, s3, e0);
    lemma_run_step(nodes, s3, e0, (f - 3) as nat, s4, e0);
    lemma_run_step(nodes, s4, e0, (f - 4) as nat, s5, e0);
    // the condition
    let sc = seq![CmdModel::Eval { ast: c, env: None }];
    let (vc, e1x, rc) = settle(nodes, sc, e0, fc).unwrap();
    lemma_settle_fuel(nodes, sc, e0, fc);
    lemma_settle_frame(nodes, pre1, sc, e0, fc, (f - 5) as nat);
    let g1 = (f - 5 - (fc - rc)) as nat;
    let t0 = pre1.push(CmdModel::Return(ValueModel::Bool(false)));
    let t1 = seq![eb, ea, CmdModel::Return(ValueModel::If2(false))];
    let if3 = ValueModel::If3(false, Box::new(ValueModel::Add));
    let t2 = seq![eb, CmdModel::Return(if3)];
    let pre2 = seq![CmdModel::Eval3(if3)];
    let t3 = pre2 + seq![CmdModel::Eval { ast: b, env: None }];
    assert(step(nodes, t0, e1) == StepModel::Next(t1, e1)) by {
        assert(t0.drop_last() =~= pre1);
        assert(pre1.drop_last() =~= seq![eb, ea]);
        assert(seq![eb, ea].push(CmdModel::Return(ValueModel::If2(false))) =~= t1);
    }
    assert(step(nodes, t1, e1) == StepModel::Next(t2, e1)) by {
        assert(t1.drop_last() =~= seq![eb, ea]);
        assert(seq![eb, ea].drop_last() =~= seq![eb]);
        assert(seq![eb].push(CmdModel::Return(if3)) =~= t2);
    }
    assert(step(nodes, t2, e1) == StepModel::Next(t3, e1)) by {
        assert(t2.drop_last() =~= seq![eb]);
        assert(seq![eb].drop_last() =~= Seq::<CmdModel>::empty());
        assert(Seq::<CmdModel>::empty().push(CmdModel::Eval3(if3)).push(CmdModel::Eval { ast: b, env: None }) =~= t3);
    }
    lemma_run_step(nodes, t0, e1, g1, t1, e1);
    lemma_run_step(nodes, t1, e1, (g1 - 1) as nat, t2, e1);
    lemma_run_step(nodes, t2, e1, (g1 - 2) as nat, t3, e1);
    // the else-branch
    let sb = seq![CmdModel::Eval { ast: b, env: None }];
    let (vb, e2, rb) = settle(nodes, sb, e1, fb).unwrap();
    lemma_settle_fuel(nodes, sb, e1, fb);
    lemma_settle_frame(nodes, pre2, sb, e1, fb, (g1 - 3) as nat);
    let g2 = (g1 - 3 - (fb - rb)) as nat;
    let u0 = pre2.push(CmdModel::Return(vb));
    let u1 = seq![CmdModel::Return(vb)];
    assert(step(nodes, u0, e2) == StepModel::Next(u1, e2)) by {
        assert(u0.drop_last() =~= pre2);
        assert(pre2.drop_last() =~= Seq::<CmdModel>::empty());
        assert(Seq::<CmdModel>::empty().push(CmdModel::Return(vb)) =~= u1);
    }
    lemma_run_step(nodes, u0, e2, g2, u1, e2);
    assert(u1.drop_last() =~= Seq::<CmdModel>::empty());
}

/// `app (app (app if c) a) b` where `c` comes to `true`: the value is what
/// `a` comes to, whatever `b` is; `b` is never evaluated (it may be stuck
/// or never end).
pub proof fn lemma_if_true_takes_then(
    nodes: Seq<AstModel>,
    r: usize,
    l1: usize,
    l2: usize,
    i: usize,
    c: usize,
    a: usize,
    b: usize,
    fc: nat,
    fa: nat,
    e1: Seq<EnvModel>,
)
    requires
        if_term(nodes, r, l1, l2, i, c, a, b),
        settle(nodes, seq![CmdModel::Eval { ast: c, env: None }], Seq::<EnvModel>::empty(), fc) matches Some(
            (ValueModel::Bool(true), e, _),
        ) && e == e1,
        settle(nodes, seq![CmdModel::Eval { ast: a, env: None }], e1, fa) is Some,
    ensures
        run(nodes, seq![CmdModel::Eval { ast: r, env: None }], Seq::<EnvModel>::empty(), fc + fa + 10) == OutcomeModel::Done(
            settle(nodes, seq![CmdModel::Eval { ast: a, env: None }], e1, fa).unwrap().0,
        ),
{
    let e0 = Seq::<EnvModel>::empty();
    let f = fc + fa + 10;
    let eb = CmdModel::Eval2 { rhs: b, env: None };
    let ea = CmdModel::Eval2 { rhs: a, env: None };
    let ec = CmdModel::Eval2 { rhs: c, env: None };
    let s0 = seq![CmdModel::Eval { ast: r, env: None }];
    let s1 = seq![eb, CmdModel::Eval { ast: l1, env: None }];
    let s2 = seq![eb, ea, CmdModel::Eval { ast: l2, env: None }];
    let s3 = seq![eb, ea, ec, CmdModel::Eval { ast: i, env: None }];
    let s4 = seq![eb, ea, ec, CmdModel::Return(ValueModel::If)];
    let pre1 = seq![eb, ea, CmdModel::Eval3(ValueModel::If)];
    let s5 = pre1 + seq![CmdModel::Eval { ast: c, env: None }];
    assert(s0.drop_last() =~= Seq::<CmdModel>::empty());
    assert(step(nodes, s0, e0) == StepModel::Next(s1, e0)) by {
        assert(Seq::<CmdModel>::empty().push(eb).push(CmdModel::Eval { ast: l1, env: None }) =~= s1);
    }
    assert(step(nodes, s1, e0) == StepModel::Next(s2, e0)) by {
        assert(s1.drop_last() =~= seq![eb]);
        assert(seq![eb].push(ea).push(CmdModel::Eval { ast: l2, env: None }) =~= s2);
    }
    assert(step(nodes, s2, e0) == StepModel::Next(s3, e0)) by {
        assert(s2.drop_last() =~= seq![eb, ea]);
        assert(seq![eb, ea].push(ec).push(CmdModel::Eval { ast: i, env: None }) =~= s3);
    }
    assert(step(nodes, s3, e0) == StepModel::Next(s4, e0)) by {
        assert(s3.drop_last() =~= seq![eb, ea, ec]);
        assert(seq![eb, ea, ec].push(CmdModel::Return(ValueModel::If)) =~= s4);
    }
    assert(step(nodes, s4, e0) == StepModel::Next(s5, e0)) by {
        assert(s4.drop_last() =~= seq![eb, ea, ec]);
        assert(seq![eb, ea, ec].drop_last() =~= seq![eb, ea]);
        assert(seq![eb, ea].push(CmdModel::Eval3(ValueModel::If)).push(CmdModel::Eval { ast: c, env: None }) =~= s5);
    }
    lemma_run_step(nodes, s0, e0, f, s1, e0);
    lemma_run_step(nodes, s1, e0, (f - 1) as nat, s2, e0);
    lemma_run_step(nodes, s2, e0, (f - 2) as nat, s3, e0);
    lemma_run_step(nodes, s3, e0, (f - 3) as nat, s4, e0);
    lemma_run_step(nodes, s4, e0, (f - 4) as nat, s5, e0);
    // the condition
    let sc = seq![CmdModel::Eval { ast: c, env: None }];
    let (vc, e1x, rc) = settle(nodes, sc, e0, fc).unwrap();
    lemma_settle_fuel(nodes, sc, e0, fc);
    lemma_settle_frame(nodes, pre1, sc, e0, fc, (f - 5) as nat);
    let g1 = (f - 5 - (fc - rc)) as nat;
    let t0 = pre1.push(CmdModel::Return(ValueModel::Bool(true)));
    let t1 = seq![eb, ea, CmdModel::Return(ValueModel::If2(true))];
    let pre2 = seq![eb, CmdModel::Eval3(ValueModel::If2(true))];
    let t2 = pre2 + seq![CmdModel::Eval { ast: a, env: None }];
    assert(step(nodes, t0, e1) == StepModel::Next(t1, e1)) by {
        assert(t0.drop_last() =~= pre1);
        assert(pre1.drop_last() =~= seq![eb, ea]);
        assert(seq![eb, ea].push(CmdModel::Return(ValueModel::If2(true))) =~= t1);
    }
    assert(step(nodes, t1, e1) == StepModel::Next(t2, e1)) by {
        assert(t1.drop_last() =~= seq![eb, ea]);
        assert(seq![eb, ea].drop_last() =~= seq![eb]);
        assert(seq![eb].push(CmdModel::Eval3(ValueModel::If2(true))).push(CmdModel::Eval { ast: a, env: None }) =~= t2);
    }
    lemma_run_step(nodes, t0, e1, g1, t1, e1);
    lemma_run_step(nodes, t1, e1, (g1 - 1) as nat, t2, e1);
    // the then-branch
    let sa = seq![CmdModel::Eval { ast: a, env: None }];
    let (va, e2, ra) = settle(nodes, sa, e1, fa).unwrap();
    lemma_settle_fuel(nodes, sa, e1, fa);
    lemma_settle_frame(nodes, pre2, sa, e1, fa, (g1 - 2) as nat);
    let g2 = (g1 - 2 - (fa - ra)) as nat;
    let if3 = ValueModel::If3(true, Box::new(va));
    let u0 = pre2.push(CmdModel::Return(va));
    let u1 = seq![eb, CmdModel::Return(if3)];
    let u2 = seq![CmdModel::Return(va)];
    assert(step(nodes, u0, e2) == StepModel::Next(u1, e2)) by {
        assert(u0.drop_last() =~= pre2);
        assert(pre2.drop_last() =~= seq![eb]);
        assert(seq![eb].push(CmdModel::Return(if3)) =~= u1);
    }
    assert(step(nodes, u1, e2) == StepModel::Next(u2, e2)) by {
        assert(u1.drop_last() =~= seq![eb]);
        assert(seq![eb].drop_last() =~= Seq::<CmdModel>::empty());
        assert(Seq::<CmdModel>::empty().push(CmdModel::Return(va)) =~= u2);
    }
    lemma_run_step(nodes, u0, e2, g2, u1, e2);
    lemma_run_step(nodes, u1, e2, (g2 - 1) as nat, u2, e2);
    assert(u2.drop_last() =~= Seq::<CmdModel>::empty());
}

/// How an evaluation ended: with a value, stuck (a name without a value, a
/// builtin applied to the wrong kind of value, or `if false` applied to an
/// argument directly), or out of fuel.
pub enum EvalOutcome {
    Done(Value),
    Stuck,
    OutOfFuel,
}

impl EvalOutcome {
    pub open spec fn model(&self) -> OutcomeModel {
        match self {
            EvalOutcome::Done(v) => OutcomeModel::Done(v.model()),
            EvalOutcome::Stuck => OutcomeModel::Stuck,
            EvalOutcome::OutOfFuel => OutcomeModel::OutOfFuel,
        }
    }
}

/// The value bound to `id` in environment `env`.
fn lookup_env(envs: &Vec<EnvNode>, env: Option<usize>, id: usize) -> (r: Option<Value>)
    ensures
        match env_lookup(envs_model(envs@), env, id) {
            None => r is None,
            Some(m) => r matches Some(v) && v.model() == m,
        },
{
    let ghost em = envs_model(envs@);
    let mut cur = env;
    let mut bound: usize = envs.len();
    proof {
        assert(em.take(bound as int) =~= em);
    }
    loop
        invariant
            em == envs_model(envs@),
            bound <= envs@.len(),
            env_lookup(em, env, id) == env_lookup(em.take(bound as int), cur, id),
        decreases bound,
    {
        match cur {
            None => {
                return None;
            },
            Some(i) => {
                if i >= bound {
                    return None;
                }
                let node = &envs[i];
                proof {
                    assert(em.take(bound as int)[i as int] == node.model());
                    assert(em.take(bound as int).take(i as int) =~= em.take(i as int));
                }
                if node.var == id {
                    return Some(node.val.duplicate());
                }
                cur = node.parent;
                bound = i;
            },
        }
    }
}

/// Evaluates the term at node `root` of `nodes` in the empty environment,
/// running the machine for at most `fuel` steps.
pub fn eval(nodes: &Vec<Ast>, root: usize, fuel: u64) -> (r: EvalOutcome)
    ensures
        r.model() == run(
            nodes_model(nodes@),
            seq![CmdModel::Eval { ast: root, env: None }],
            Seq::<EnvModel>::empty(),
            fuel as nat,
        ),
{
    let ghost nm = nodes_model(nodes@);
    let mut stack: Vec<EvalState> = Vec::new();
    stack.push(EvalState::Eval { ast: root, env: None });
    let mut envs: Vec<EnvNode> = Vec::new();
    let mut left = fuel;
    proof {
        assert(stack_model(stack@) =~= seq![CmdModel::Eval { ast: root, env: None }]);
        assert(envs_model(envs@) =~= Seq::<EnvModel>::empty());
    }
    loop
        invariant
            nm == nodes_model(nodes@),
            run(nm, seq![CmdModel::Eval { ast: root, env: None }], Seq::<EnvModel>::empty(), fuel as nat)
                == run(nm, stack_model(stack@), envs_model(envs@), left as nat),
        decreases left,
    {
        let ghost sm = stack_model(stack@);
        let ghost em = envs_model(envs@);
        if left == 0 {
            return EvalOutcome::OutOfFuel;
        }
        left = left - 1;
        let command = match stack.pop() {
            None => {
                return EvalOutcome::Stuck;
            },
            Some(c) => c,
        };
        proof {
            assert(sm.last() == command.model());
            assert(stack_model(stack@) =~= sm.drop_last());
        }
        match command {
            EvalState::Eval { ast, env } => {
                if ast >= nodes.len() {
                    return EvalOutcome::Stuck;
                }
                proof {
                    assert(nm[ast as int] == nodes@[ast as int].model());
                }
                match &nodes[ast] {
                    Ast::Abs { var, body } => {
                        stack.push(EvalState::Return(Value::Lambda { var: *var, body: *body, env }));
                        proof {
                            assert(stack_model(stack@) =~= sm.drop_last().push(
                                CmdModel::Return(ValueModel::Lambda { var: *var, body: *body, env }),
                            ));
                        }
                    },
                    Ast::App { lhs, rhs } => {
                        stack.push(EvalState::Eval2 { rhs: *rhs, env });
                        stack.push(EvalState::Eval { ast: *lhs, env });
                        proof {
                            assert(stack_model(stack@) =~= sm.drop_last().push(
                                CmdModel::Eval2 { rhs: *rhs, env },
                            ).push(CmdModel::Eval { ast: *lhs, env }));
                        }
                    },
                    Ast::Var { id } => {
                        match lookup_env(&envs, env, *id) {
                            None => {
                                return EvalOutcome::Stuck;
                            },
                            Some(v) => {
                                stack.push(EvalState::Return(v));
                                proof {
                                    assert(stack_model(stack@) =~= sm.drop_last().push(
                                        CmdModel::Return(v.model()),
                                    ));
                                }
                            },
                        }
                    },
                    Ast::Const { val } => {
                        let dv = val.duplicate();
                        stack.push(EvalState::Return(dv));
                        proof {
                            assert(stack_model(stack@) =~= sm.drop_last().push(
                                CmdModel::Return(dv.model()),
                            ));
                        }
                    },
                }
            },
            EvalState::Return(returned_val) => {
                let ghost sm1 = stack_model(stack@);
                match stack.pop() {
                    None => {
                        return EvalOutcome::Done(returned_val);
                    },
                    Some(command2) => {
                        proof {
                            assert(sm1.last() == command2.model());
                            assert(stack_model(stack@) =~= sm1.drop_last());
                        }
                        match command2 {
                            EvalState::Eval2 { rhs, env } => {
                                match returned_val {
                                    Value::If2(false) => {
                                        let dummy = Value::If3(false, Box::new(Value::Add));
                                        proof {
                                            let a = Value::Add;
                                            assert(a.model() == ValueModel::Add);
                                            assert(dummy.model() == ValueModel::If3(
                                                false,
                                                Box::new(ValueModel::Add),
                                            ));
                                        }
                                        stack.push(EvalState::Return(dummy));
                                        proof {
                                            assert(stack_model(stack@) =~= sm1.drop_last().push(
                                                CmdModel::Return(
                                                    ValueModel::If3(false, Box::new(ValueModel::Add)),
                                                ),
                                            ));
                                        }
                                    },
                                    Value::If3(true, val) => {
                                        let inner = *val;
                                        stack.push(EvalState::Return(inner));
                                        proof {
                                            assert(stack_model(stack@) =~= sm1.drop_last().push(
                                                CmdModel::Return(inner.model()),
                                            ));
                                        }
                                    },
                                    other => {
                                        proof {
                                            assert(other.model() != ValueModel::If2(false));
                                            assert(!(other.model() matches ValueModel::If3(true, _)));
                                        }
                                        let ghost om = other.model();
                                        stack.push(EvalState::Eval3(other));
                                        stack.push(EvalState::Eval { ast: rhs, env });
                                        proof {
                                            assert(stack_model(stack@) =~= sm1.drop_last().push(
                                                CmdModel::Eval3(om),
                                            ).push(CmdModel::Eval { ast: rhs, env }));
                                        }
                                    },
                                }
                            },
                            EvalState::Eval3(e1) => {
                                match e1 {
                                    Value::Lambda { var, body, env } => {
                                        let idx = envs.len();
                                        let ghost rv = returned_val.model();
                                        envs.push(EnvNode { var, val: returned_val, parent: env });
                                        stack.push(EvalState::Eval { ast: body, env: Some(idx) });
                                        proof {
                                            assert(stack_model(stack@) =~= sm1.drop_last().push(
                                                CmdModel::Eval { ast: body, env: Some(idx) },
                                            ));
                                            assert(envs_model(envs@) =~= em.push(
                                                EnvModel { var, val: rv, parent: env },
                                            ));
                                        }
                                    },
                                    other => {
                                        proof {
                                            assert(!(other.model() is Lambda));
                                        }
                                        if !other.can_call(&returned_val) {
                                            return EvalOutcome::Stuck;
                                        }
                                        let result = other.call(returned_val);
                                        let ghost resm = result.model();
                                        stack.push(EvalState::Return(result));
                                        proof {
                                            assert(stack_model(stack@) =~= sm1.drop_last().push(
                                                CmdModel::Return(resm),
                                            ));
                                        }
                                    },
                                }
                            },
                            _ => {
                                return EvalOutcome::Stuck;
                            },
                        }
                    },
                }
            },
            _ => {
                return EvalOutcome::Stuck;
            },
        }
        proof {
            assert(step(nm, sm, em) == StepModel::Next(stack_model(stack@), envs_model(envs@)));
        }
    }
}

/// The builtin names in scope at the start of a line: `add`, `gt`, `if`,
/// `true` and `false`, bound to ids 0 to 4.
pub open spec fn builtin_scope() -> Seq<(Seq<u8>, usize)> {
    seq![
        (seq![0x61u8, 0x64u8, 0x64u8], 0usize),
        (seq![0x67u8, 0x74u8], 1usize),
        (seq![0x69u8, 0x66u8], 2usize),
        (seq![0x74u8, 0x72u8, 0x75u8, 0x65u8], 3usize),
        (seq![0x66u8, 0x61u8, 0x6cu8, 0x73u8, 0x65u8], 4usize),
    ]
}

/// How a line of the interpreter ends: its tokens do not start with a term,
/// or the term was evaluated.
pub enum LineOutcome {
    NoTerm,
    Evaluated(EvalOutcome),
}

/// Interprets one line: the builtins are bound, the term at the start of
/// the line is parsed (tokens after it are ignored) and evaluated for at
/// most `fuel` steps.
pub fn run_line(line: &str, fuel: u64) -> (r: LineOutcome)
    requires
        line.spec_bytes().len() + 10 < usize::MAX,
    ensures
        match parse_term(
            crate::lexer::lex_tokens(line.spec_bytes()),
            0,
            builtin_scope(),
            5,
            Seq::<AstModel>::empty(),
        ) {
            None => r is NoTerm,
            Some((nodes, root, _, _)) => r matches LineOutcome::Evaluated(o) && o.model() == run(
                nodes,
                seq![CmdModel::Eval { ast: root as usize, env: None }],
                Seq::<EnvModel>::empty(),
                fuel as nat,
            ),
        },
{
    let toks = crate::lexer::tokenize(line);
    let ghost lex = crate::lexer::lex_tokens(line.spec_bytes());
    proof {
        assert forall|i: int| 0 <= i < toks@.len() implies tokens_model(toks@)[i] == lex[i] by {
            crate::text::lemma_ascii_encode(lex[i]);
        }
        assert(tokens_model(toks@) =~= lex);
        crate::lexer::lemma_token_count(line.spec_bytes());
    }
    let mut astman = AstManager::new();
    let mut varmap: Vec<(Vec<u8>, usize)> = Vec::new();
    let add_name: Vec<u8> = vec![0x61u8, 0x64u8, 0x64u8];
    let gt_name: Vec<u8> = vec![0x67u8, 0x74u8];
    let if_name: Vec<u8> = vec![0x69u8, 0x66u8];
    let true_name: Vec<u8> = vec![0x74u8, 0x72u8, 0x75u8, 0x65u8];
    let false_name: Vec<u8> = vec![0x66u8, 0x61u8, 0x6cu8, 0x73u8, 0x65u8];
    astman.new_var(add_name.as_slice(), &mut varmap);
    astman.new_var(gt_name.as_slice(), &mut varmap);
    astman.new_var(if_name.as_slice(), &mut varmap);
    astman.new_var(true_name.as_slice(), &mut varmap);
    astman.new_var(false_name.as_slice(), &mut varmap);
    proof {
        assert(add_name@ =~= seq![0x61u8, 0x64u8, 0x64u8]);
        assert(gt_name@ =~= seq![0x67u8, 0x74u8]);
        assert(if_name@ =~= seq![0x69u8, 0x66u8]);
        assert(true_name@ =~= seq![0x74u8, 0x72u8, 0x75u8, 0x65u8]);
        assert(false_name@ =~= seq![0x66u8, 0x61u8, 0x6cu8, 0x73u8, 0x65u8]);
        assert(scope_model(varmap@) =~= builtin_scope());
    }
    if term_end(&toks, 0, &mut varmap).is_none() {
        return LineOutcome::NoTerm;
    }
    let (root, _) = astman.parse(&toks, 0, &mut varmap);
    LineOutcome::Evaluated(eval(&astman.nodes, root, fuel))
}

} // verus!
