//! Type inference for the lambda calculus of `lambda`: terms are typed by
//! generating equations between types and solving them by unification.
use vstd::prelude::*;
use vstd::utf8::encode_utf8;
use vstd::string::StringSliceAdditionalSpecFns;
use crate::lambda::{tok_app, tok_lam, tok_open, tokens_model};

verus! {

/// A type: `bool`, `int`, a type variable, or a function type.
pub enum Type {
    Bool,
    Int,
    Var { id: u32 },
    Func { arg: Box<Type>, ret: Box<Type> },
}

/// A substitution: the variable and the type that replaces it.
pub type Substitution = (u32, Type);

/// The function type from `arg` to `ret`.
pub open spec fn func(arg: Type, ret: Type) -> Type {
    Type::Func { arg: Box::new(arg), ret: Box::new(ret) }
}

/// `t` with every occurrence of variable `id` replaced by `r` (once: the
/// replacement is not searched again).
pub open spec fn subst_type(t: Type, id: u32, r: Type) -> Type
    decreases t,
{
    match t {
        Type::Func { arg, ret } => func(subst_type(*arg, id, r), subst_type(*ret, id, r)),
        Type::Var { id: v } => if v == id {
            r
        } else {
            t
        },
        _ => t,
    }
}

/// Whether variable `id` occurs in `t`.
pub open spec fn occurs(t: Type, id: u32) -> bool
    decreases t,
{
    match t {
        Type::Func { arg, ret } => occurs(*arg, id) || occurs(*ret, id),
        Type::Var { id: v } => v == id,
        _ => false,
    }
}

/// `t` with the substitutions applied one after the other.
pub open spec fn apply_all(t: Type, subs: Seq<Substitution>) -> Type
    decreases subs.len(),
{
    if subs.len() == 0 {
        t
    } else {
        apply_all(subst_type(t, subs[0].0, subs[0].1), subs.drop_first())
    }
}

/// A function type built from its parts.
pub fn new_func(arg: Type, ret: Type) -> (r: Type)
    ensures
        r == func(arg, ret),
{
    Type::Func { arg: Box::new(arg), ret: Box::new(ret) }
}

impl Type {
    /// A copy of this type.
    pub fn duplicate(&self) -> (r: Type)
        ensures
            r == *self,
        decreases self,
    {
        match self {
            Type::Bool => Type::Bool,
            Type::Int => Type::Int,
            Type::Var { id } => Type::Var { id: *id },
            Type::Func { arg, ret } => new_func((**arg).duplicate(), (**ret).duplicate()),
        }
    }

    /// Applies `substitution` to the boxed type `r`; returns whether the
    /// variable occurred.
    pub fn sub_ref(r: &mut Box<Type>, substitution: &Substitution) -> (changed: bool)
        ensures
            **final(r) == subst_type(**old(r), substitution.0, substitution.1),
            changed == occurs(**old(r), substitution.0),
        decreases **old(r), 1nat,
    {
        let mut temp = (**r).duplicate();
        let changed = temp.sub(substitution);
        if changed {
            *r = Box::new(temp);
        } else {
            proof {
                lemma_subst_absent(**old(r), substitution.0, substitution.1);
            }
        }
        changed
    }

    /// Applies `substitution` to this type; returns whether the variable
    /// occurred.
    pub fn sub(&mut self, substitution: &Substitution) -> (changed: bool)
        ensures
            *final(self) == subst_type(*old(self), substitution.0, substitution.1),
            changed == occurs(*old(self), substitution.0),
        decreases *old(self), 0nat,
    {
        match self {
            Type::Func { arg, ret } => {
                let changed1 = Self::sub_ref(arg, substitution);
                let changed2 = Self::sub_ref(ret, substitution);
                return changed1 || changed2;
            },
            Type::Var { id } => {
                if *id != substitution.0 {
                    return false;
                }
            },
            Type::Bool | Type::Int => {
                return false;
            },
        }
        *self = substitution.1.duplicate();
        true
    }
}

/// Substituting a variable that does not occur changes nothing.
pub proof fn lemma_subst_absent(t: Type, id: u32, r: Type)
    requires
        !occurs(t, id),
    ensures
        subst_type(t, id, r) == t,
    decreases t,
{
    if let Type::Func { arg, ret } = t {
        lemma_subst_absent(*arg, id, r);
        lemma_subst_absent(*ret, id, r);
    }
}

/// Whether two types are the same.
pub fn same_type(a: &Type, b: &Type) -> (r: bool)
    ensures
        r == (*a == *b),
    decreases a,
{
    match (a, b) {
        (Type::Bool, Type::Bool) => true,
        (Type::Int, Type::Int) => true,
        (Type::Var { id: x }, Type::Var { id: y }) => *x == *y,
        (Type::Func { arg: a1, ret: r1 }, Type::Func { arg: a2, ret: r2 }) => {
            same_type(&**a1, &**a2) && same_type(&**r1, &**r2)
        },
        _ => false,
    }
}

/// The substitutions that unifying `t1` with `t2` produces, appended in
/// order, when the recursion stays within `depth` levels: equal types need
/// none; a variable on the left, else on the right, is bound to the other
/// side; two function types unify their arguments, apply what that gave to
/// both results, and unify those. Any other pair gives no substitution.
/// Unification can recurse without end (there is no occurs check), hence
/// the bound; `None` where it is exceeded.
pub open spec fn unify_spec(t1: Type, t2: Type, depth: nat) -> Option<Seq<Substitution>>
    decreases depth,
{
    if depth == 0 {
        None
    } else if t1 == t2 {
        Some(seq![])
    } else if t1 is Var {
        Some(seq![(t1->id, t2)])
    } else if t2 is Var {
        Some(seq![(t2->id, t1)])
    } else {
        match (t1, t2) {
            (Type::Func { arg: a1, ret: r1 }, Type::Func { arg: a2, ret: r2 }) => match unify_spec(
                *a1,
                *a2,
                (depth - 1) as nat,
            ) {
                None => None,
                Some(s1) => match unify_spec(
                    apply_all(*r1, s1),
                    apply_all(*r2, s1),
                    (depth - 1) as nat,
                ) {
                    None => None,
                    Some(s2) => Some(s1 + s2),
                },
            },
            _ => Some(seq![]),
        }
    }
}

/// A unification that finishes within a depth bound gives the same
/// substitutions under any larger bound.
pub proof fn lemma_unify_more_depth(t1: Type, t2: Type, d1: nat, d2: nat)
    requires
        d1 <= d2,
        unify_spec(t1, t2, d1) is Some,
    ensures
        unify_spec(t1, t2, d2) == unify_spec(t1, t2, d1),
    decreases d1,
{
    if d1 > 0 && t1 != t2 && !(t1 is Var) && !(t2 is Var) {
        match (t1, t2) {
            (Type::Func { arg: a1, ret: r1 }, Type::Func { arg: a2, ret: r2 }) => {
                lemma_unify_more_depth(*a1, *a2, (d1 - 1) as nat, (d2 - 1) as nat);
                let s1 = unify_spec(*a1, *a2, (d1 - 1) as nat).unwrap();
                lemma_unify_more_depth(apply_all(*r1, s1), apply_all(*r2, s1), (d1 - 1) as nat, (d2 - 1) as nat);
            },
            _ => {},
        }
    }
}

/// Unifying `t1` with `t2` within `depth` levels never binds a variable to
/// a type that contains it and never meets two different type
/// constructors (`bool`, `int`, function) where neither side is a
/// variable: the cases in which the substitutions can make the two types
/// equal.
pub open spec fn unifies_cleanly(t1: Type, t2: Type, depth: nat) -> bool
    decreases depth,
{
    if depth == 0 {
        false
    } else if t1 == t2 {
        true
    } else if t1 is Var {
        !occurs(t2, t1->id)
    } else if t2 is Var {
        !occurs(t1, t2->id)
    } else {
        match (t1, t2) {
            (Type::Func { arg: a1, ret: r1 }, Type::Func { arg: a2, ret: r2 }) => {
                &&& unifies_cleanly(*a1, *a2, (depth - 1) as nat)
                &&& match unify_spec(*a1, *a2, (depth - 1) as nat) {
                    Some(s1) => unifies_cleanly(apply_all(*r1, s1), apply_all(*r2, s1), (depth - 1) as nat),
                    None => false,
                }
            },
            _ => false,
        }
    }
}

/// Applying substitutions to a function type applies them to its parts.
proof fn lemma_apply_all_func(a: Type, r: Type, subs: Seq<Substitution>)
    ensures
        apply_all(func(a, r), subs) == func(apply_all(a, subs), apply_all(r, subs)),
    decreases subs.len(),
{
    if subs.len() > 0 {
        lemma_apply_all_func(subst_type(a, subs[0].0, subs[0].1), subst_type(r, subs[0].0, subs[0].1), subs.drop_first());
    }
}

/// Applying two lists of substitutions one after the other is applying
/// them joined.
proof fn lemma_apply_all_concat(t: Type, s1: Seq<Substitution>, s2: Seq<Substitution>)
    ensures
        apply_all(t, s1 + s2) == apply_all(apply_all(t, s1), s2),
    decreases s1.len(),
{
    if s1.len() > 0 {
        assert((s1 + s2).drop_first() =~= s1.drop_first() + s2);
        assert((s1 + s2)[0] == s1[0]);
        lemma_apply_all_concat(subst_type(t, s1[0].0, s1[0].1), s1.drop_first(), s2);
    } else {
        assert(s1 + s2 =~= s2);
    }
}

/// Where unification goes cleanly (see `unifies_cleanly`), its
/// substitutions, applied in order, make the two types equal.
pub proof fn lemma_unify_unifies(t1: Type, t2: Type, depth: nat)
    requires
        unifies_cleanly(t1, t2, depth),
    ensures
        unify_spec(t1, t2, depth) is Some,
        apply_all(t1, unify_spec(t1, t2, depth).unwrap()) == apply_all(t2, unify_spec(t1, t2, depth).unwrap()),
    decreases depth,
{
    let s = unify_spec(t1, t2, depth).unwrap();
    if t1 == t2 {
    } else if t1 is Var {
        let v = t1->id;
        assert(s == seq![(v, t2)]);
        assert(s.drop_first() =~= Seq::<Substitution>::empty());
        lemma_subst_absent(t2, v, t2);
    } else if t2 is Var {
        let v = t2->id;
        assert(s == seq![(v, t1)]);
        assert(s.drop_first() =~= Seq::<Substitution>::empty());
        lemma_subst_absent(t1, v, t1);
    } else {
        match (t1, t2) {
            (Type::Func { arg: a1, ret: r1 }, Type::Func { arg: a2, ret: r2 }) => {
                let d = (depth - 1) as nat;
                lemma_unify_unifies(*a1, *a2, d);
                let s1 = unify_spec(*a1, *a2, d).unwrap();
                let x1 = apply_all(*r1, s1);
                let x2 = apply_all(*r2, s1);
                lemma_unify_unifies(x1, x2, d);
                let s2 = unify_spec(x1, x2, d).unwrap();
                assert(s == s1 + s2);
                assert(t1 == func(*a1, *r1));
                assert(t2 == func(*a2, *r2));
                lemma_apply_all_concat(t1, s1, s2);
                lemma_apply_all_concat(t2, s1, s2);
                lemma_apply_all_func(*a1, *r1, s1);
                lemma_apply_all_func(*a2, *r2, s1);
                lemma_apply_all_func(apply_all(*a1, s1), x1, s2);
                lemma_apply_all_func(apply_all(*a2, s1), x2, s2);
            },
            _ => {},
        }
    }
}

/// Solving within a depth bound gives the same type under any larger bound.
pub proof fn lemma_solve_more_depth(cons: Seq<(Type, Type)>, t: Type, d1: nat, d2: nat)
    requires
        d1 <= d2,
        solve_spec(cons, t, d1) is Some,
    ensures
        solve_spec(cons, t, d2) == solve_spec(cons, t, d1),
    decreases cons.len(),
{
    if cons.len() > 0 {
        lemma_unify_more_depth(cons.last().0, cons.last().1, d1, d2);
        let subs = unify_spec(cons.last().0, cons.last().1, d1).unwrap();
        lemma_solve_more_depth(apply_to_cons(cons.drop_last(), subs), apply_all(t, subs), d1, d2);
    }
}

proof fn lemma_apply_all_push(t: Type, subs: Seq<Substitution>, s: Substitution)
    ensures
        apply_all(t, subs.push(s)) == subst_type(apply_all(t, subs), s.0, s.1),
    decreases subs.len(),
{
    if subs.len() > 0 {
        assert(subs.push(s).drop_first() =~= subs.drop_first().push(s));
        assert(subs.push(s)[0] == subs[0]);
        lemma_apply_all_push(subst_type(t, subs[0].0, subs[0].1), subs.drop_first(), s);
    } else {
        assert(subs.push(s).drop_first() =~= Seq::<Substitution>::empty());
        assert(subs.push(s)[0] == s);
        let x = subst_type(t, s.0, s.1);
        assert(apply_all(x, Seq::<Substitution>::empty()) == x);
        assert(apply_all(t, subs) == t);
    }
}

/// Applies `subs[from..]` to `t` in order.
fn apply_from(t: &mut Type, subs: &Vec<Substitution>, from: usize)
    requires
        from <= subs@.len(),
    ensures
        *final(t) == apply_all(*old(t), subs@.subrange(from as int, subs@.len() as int)),
{
    let mut k = from;
    proof {
        assert(subs@.subrange(from as int, k as int) =~= Seq::<Substitution>::empty());
    }
    while k < subs.len()
        invariant
            from <= k <= subs@.len(),
            *t == apply_all(*old(t), subs@.subrange(from as int, k as int)),
        decreases subs@.len() - k,
    {
        let ghost before = *t;
        t.sub(&subs[k]);
        proof {
            assert(subs@.subrange(from as int, k + 1) =~= subs@.subrange(from as int, k as int).push(
                subs@[k as int],
            ));
            lemma_apply_all_push(*old(t), subs@.subrange(from as int, k as int), subs@[k as int]);
        }
        k = k + 1;
    }
}

/// Unifies `t1` with `t2`, appending the substitutions to `outsubs`;
/// `false` when the recursion would go deeper than `depth`.
pub fn unify(t1: Type, t2: Type, outsubs: &mut Vec<Substitution>, depth: u64) -> (ok: bool)
    ensures
        match unify_spec(t1, t2, depth as nat) {
            None => !ok,
            Some(s) => ok && final(outsubs)@ == old(outsubs)@ + s,
        },
    decreases depth,
{
    let ghost g1 = t1;
    let ghost g2 = t2;
    if depth == 0 {
        return false;
    }
    if same_type(&t1, &t2) {
        proof {
            assert(old(outsubs)@ + Seq::<Substitution>::empty() =~= outsubs@);
        }
        return true;
    }
    if let Type::Var { id } = t1 {
        let ghost t2m = t2;
        outsubs.push((id, t2));
        proof {
            assert(outsubs@ =~= old(outsubs)@ + seq![(id, t2m)]);
        }
        return true;
    }
    if let Type::Var { id } = t2 {
        let ghost t1m = t1;
        outsubs.push((id, t1));
        proof {
            assert(outsubs@ =~= old(outsubs)@ + seq![(id, t1m)]);
        }
        return true;
    }
    match t1 {
        Type::Func { arg: arg1, ret: ret1 } => match t2 {
            Type::Func { arg: arg2, ret: ret2 } => {
                let oldlen = outsubs.len();
                let ghost s0 = outsubs@;
                if !unify(*arg1, *arg2, outsubs, depth - 1) {
                    return false;
                }
                let ghost s1 = outsubs@.subrange(oldlen as int, outsubs@.len() as int);
                proof {
                    assert(outsubs@ =~= s0 + s1);
                }
                let mut r1 = *ret1;
                let mut r2 = *ret2;
                apply_from(&mut r1, outsubs, oldlen);
                apply_from(&mut r2, outsubs, oldlen);
                let ok = unify(r1, r2, outsubs, depth - 1);
                proof {
                    assert(g1 == Type::Func { arg: arg1, ret: ret1 });
                    assert(g2 == Type::Func { arg: arg2, ret: ret2 });
                    assert(unify_spec(*arg1, *arg2, (depth - 1) as nat) == Some(s1));
                    if ok {
                        let s2 = unify_spec(apply_all(*ret1, s1), apply_all(*ret2, s1), (depth - 1) as nat).unwrap();
                        assert(outsubs@ =~= s0 + (s1 + s2));
                    }
                }
                ok
            },
            _ => {
                proof {
                    assert(old(outsubs)@ + Seq::<Substitution>::empty() =~= outsubs@);
                }
                true
            },
        },
        _ => {
            proof {
                assert(old(outsubs)@ + Seq::<Substitution>::empty() =~= outsubs@);
            }
            true
        },
    }
}

/// The type bound to `name`: the last binding wins.
pub open spec fn env_get(env: Seq<(Seq<u8>, Type)>, name: Seq<u8>) -> Option<Type>
    decreases env.len(),
{
    if env.len() == 0 {
        None
    } else if env.last().0 == name {
        Some(env.last().1)
    } else {
        env_get(env.drop_last(), name)
    }
}

/// The environment as name bytes and types.
pub open spec fn env_model(env: Seq<(Vec<u8>, Type)>) -> Seq<(Seq<u8>, Type)> {
    env.map_values(|p: (Vec<u8>, Type)| (p.0@, p.1))
}

/// Typing the term at token `pos`: `( t ...` gives the type of `t` and
/// skips one token after it; `lam x t` gives `v -> T` for a fresh `v` bound
/// to `x` in `t`; `app t u` gives a fresh `v` and records the equation
/// `T = U -> v`; any other token gives its type in the environment, or
/// `int`. The result is the type, the position after the term, the next
/// fresh variable and the equations; `None` where tokens run out.
pub open spec fn parse_type(
    toks: Seq<Seq<u8>>,
    pos: int,
    env: Seq<(Seq<u8>, Type)>,
    counter: int,
    cons: Seq<(Type, Type)>,
) -> Option<(Type, int, int, Seq<(Type, Type)>)>
    decreases toks.len() - pos,
{
    if pos < 0 || pos >= toks.len() {
        None
    } else {
        let tok = toks[pos];
        if tok == tok_open() {
            match parse_type(toks, pos + 1, env, counter, cons) {
                None => None,
                Some((t, p1, c1, k1)) => if p1 < 0 || p1 >= toks.len() {
                    None
                } else {
                    Some((t, p1 + 1, c1, k1))
                },
            }
        } else if tok == tok_lam() {
            if pos + 1 >= toks.len() {
                None
            } else {
                let v = Type::Var { id: counter as u32 };
                match parse_type(toks, pos + 2, env.push((toks[pos + 1], v)), counter + 1, cons) {
                    None => None,
                    Some((t, p1, c1, k1)) => Some((func(v, t), p1, c1, k1)),
                }
            }
        } else if tok == tok_app() {
            match parse_type(toks, pos + 1, env, counter, cons) {
                None => None,
                Some((t1, p1, c1, k1)) => if p1 <= pos || p1 > toks.len() {
                    None
                } else {
                    match parse_type(toks, p1, env, c1, k1) {
                        None => None,
                        Some((t2, p2, c2, k2)) => {
                            let v = Type::Var { id: c2 as u32 };
                            Some((v, p2, c2 + 1, k2.push((t1, func(t2, v)))))
                        },
                    }
                },
            }
        } else {
            match env_get(env, tok) {
                Some(t) => Some((t, pos + 1, counter, cons)),
                None => Some((Type::Int, pos + 1, counter, cons)),
            }
        }
    }
}

pub proof fn lemma_parse_type_progress(
    toks: Seq<Seq<u8>>,
    pos: int,
    env: Seq<(Seq<u8>, Type)>,
    counter: int,
    cons: Seq<(Type, Type)>,
)
    ensures
        parse_type(toks, pos, env, counter, cons) matches Some((t, p1, c1, k1)) ==> {
            &&& pos < p1 <= toks.len()
            &&& counter <= c1 <= counter + (p1 - pos)
        },
    decreases toks.len() - pos,
{
    if 0 <= pos < toks.len() {
        let tok = toks[pos];
        if tok == tok_open() {
            lemma_parse_type_progress(toks, pos + 1, env, counter, cons);
        } else if tok == tok_lam() {
            if pos + 1 < toks.len() {
                let v = Type::Var { id: counter as u32 };
                lemma_parse_type_progress(toks, pos + 2, env.push((toks[pos + 1], v)), counter + 1, cons);
            }
        } else if tok == tok_app() {
            lemma_parse_type_progress(toks, pos + 1, env, counter, cons);
            if let Some((t1, p1, c1, k1)) = parse_type(toks, pos + 1, env, counter, cons) {
                if p1 > pos && p1 <= toks.len() {
                    lemma_parse_type_progress(toks, p1, env, c1, k1);
                }
            }
        }
    }
}

/// The type of `name` in `env`.
fn env_lookup(env: &Vec<(Vec<u8>, Type)>, name: &[u8]) -> (r: Option<Type>)
    ensures
        r == env_get(env_model(env@), name@),
{
    let ghost em = env_model(env@);
    let mut k: usize = env.len();
    proof {
        assert(em.subrange(0, k as int) =~= em);
    }
    while k > 0
        invariant
            k <= env@.len(),
            em == env_model(env@),
            env_get(em, name@) == env_get(em.subrange(0, k as int), name@),
        decreases k,
    {
        let entry = &env[k - 1];
        proof {
            let sub = em.subrange(0, k as int);
            assert(sub.last() == em[k - 1]);
            assert(sub.drop_last() =~= em.subrange(0, k - 1));
        }
        if same_bytes(entry.0.as_slice(), name) {
            return Some(entry.1.duplicate());
        }
        k = k - 1;
    }
    proof {
        assert(em.subrange(0, 0) =~= Seq::<(Seq<u8>, Type)>::empty());
    }
    None
}

pub(crate) fn same_bytes(a: &[u8], b: &[u8]) -> (r: bool)
    ensures
        r == (a@ == b@),
{
    if a.len() != b.len() {
        return false;
    }
    let mut i: usize = 0;
    while i < a.len()
        invariant
            a@.len() == b@.len(),
            i <= a@.len(),
            forall|j: int| 0 <= j < i ==> a@[j] == b@[j],
        decreases a@.len() - i,
    {
        if a[i] != b[i] {
            return false;
        }
        i = i + 1;
    }
    proof {
        assert(a@ =~= b@);
    }
    true
}

fn tok_is(a: &[u8], lit: &[u8]) -> (r: bool)
    ensures
        r == (a@ == lit@),
{
    same_bytes(a, lit)
}

/// The source of fresh type variables.
pub struct State {
    var_counter: u32,
}

impl State {
    /// The id the next fresh variable gets.
    pub closed spec fn counter(&self) -> u32 {
        self.var_counter
    }

    /// Fresh variables start at 1.
    pub fn new() -> (r: Self)
        ensures
            r.counter() == 1,
    {
        State { var_counter: 1 }
    }

    /// A fresh type variable.
    pub fn new_var(&mut self) -> (t: Type)
        requires
            old(self).counter() < u32::MAX,
        ensures
            t == (Type::Var { id: old(self).counter() }),
            final(self).counter() == old(self).counter() + 1,
    {
        let id = self.var_counter;
        self.var_counter = self.var_counter + 1;
        Type::Var { id }
    }

    /// Types the term at token `pos` (see `parse_type`), appending its
    /// equations to `outcons`; returns the type and the position after the
    /// term.
    pub fn parse_and_get_type(
        &mut self,
        toks: &Vec<String>,
        pos: usize,
        env: &mut Vec<(Vec<u8>, Type)>,
        outcons: &mut Vec<(Type, Type)>,
    ) -> (r: Option<(Type, usize)>)
        requires
            pos <= toks@.len(),
            old(self).counter() + (toks@.len() - pos) < u32::MAX,
        ensures
            env_model(final(env)@) == env_model(old(env)@),
            match parse_type(
                tokens_model(toks@),
                pos as int,
                env_model(old(env)@),
                old(self).counter() as int,
                old(outcons)@,
            ) {
                None => r is None,
                Some((t, p1, c1, k1)) => r == Some((t, p1 as usize)) && final(self).counter() == c1
                    && final(outcons)@ == k1,
            },
        decreases toks@.len() - pos,
    {
        let ghost tm = tokens_model(toks@);
        let ghost em = env_model(env@);
        let ghost c0 = self.var_counter as int;
        let ghost k0 = outcons@;
        if pos >= toks.len() {
            return None;
        }
        let tb = toks[pos].as_str().as_bytes();
        proof {
            assert(tb@ == tm[pos as int]);
        }
        let open_lit: Vec<u8> = vec![0x28u8];
        let lam_lit: Vec<u8> = vec![0x6cu8, 0x61u8, 0x6du8];
        let app_lit: Vec<u8> = vec![0x61u8, 0x70u8, 0x70u8];
        proof {
            assert(open_lit@ =~= tok_open());
            assert(lam_lit@ =~= tok_lam());
            assert(app_lit@ =~= tok_app());
        }
        if tok_is(tb, open_lit.as_slice()) {
            proof {
                lemma_parse_type_progress(tm, pos + 1, em, c0, k0);
            }
            let (t, p1) = match self.parse_and_get_type(toks, pos + 1, env, outcons) {
                None => return None,
                Some(x) => x,
            };
            if p1 >= toks.len() {
                return None;
            }
            return Some((t, p1 + 1));
        }
        if tok_is(tb, lam_lit.as_slice()) {
            if pos + 1 >= toks.len() {
                return None;
            }
            let name = toks[pos + 1].as_str().as_bytes();
            proof {
                assert(name@ == tm[pos + 1]);
            }
            let var = self.new_var();
            let owned = vstd::slice::slice_to_vec(name);
            env.push((owned, var.duplicate()));
            proof {
                assert(env_model(env@) =~= em.push((tm[pos + 1], var)));
            }
            let body = self.parse_and_get_type(toks, pos + 2, env, outcons);
            let ghost inner = env@;
            let _ = env.pop();
            proof {
                assert(env_model(env@) =~= env_model(inner).drop_last());
            }
            let (t, p1) = match body {
                None => return None,
                Some(x) => x,
            };
            return Some((new_func(var, t), p1));
        }
        if tok_is(tb, app_lit.as_slice()) {
            proof {
                lemma_parse_type_progress(tm, pos + 1, em, c0, k0);
            }
            let (t1, p1) = match self.parse_and_get_type(toks, pos + 1, env, outcons) {
                None => return None,
                Some(x) => x,
            };
            proof {
                let (_, _, c1, k1) = parse_type(tm, pos + 1, em, c0, k0).unwrap();
                lemma_parse_type_progress(tm, p1 as int, em, c1, k1);
            }
            let (t2, p2) = match self.parse_and_get_type(toks, p1, env, outcons) {
                None => return None,
                Some(x) => x,
            };
            let var = self.new_var();
            let v2 = var.duplicate();
            outcons.push((t1, new_func(t2, v2)));
            return Some((var, p2));
        }
        let t = match env_lookup(env, tb) {
            Some(t) => t,
            None => Type::Int,
        };
        Some((t, pos + 1))
    }

    /// The types of the builtins, with two fresh variables for `if` and
    /// `fix`.
    pub fn globals(&mut self) -> (env: Vec<(Vec<u8>, Type)>)
        requires
            old(self).counter() + 2 < u32::MAX,
        ensures
            final(self).counter() == old(self).counter() + 2,
            env_model(env@) == globals_env(old(self).counter()),
    {
        let ifv = self.new_var();
        let fixv = self.new_var();
        let mut env: Vec<(Vec<u8>, Type)> = Vec::new();
        env.push((vec![0x61u8, 0x64u8, 0x64u8], new_func(Type::Int, new_func(Type::Int, Type::Int))));
        env.push((vec![0x67u8, 0x74u8], new_func(Type::Int, new_func(Type::Int, Type::Bool))));
        env.push(
            (
                vec![0x69u8, 0x66u8],
                new_func(
                    Type::Bool,
                    new_func(ifv.duplicate(), new_func(ifv.duplicate(), ifv.duplicate())),
                ),
            ),
        );
        env.push(
            (
                vec![0x66u8, 0x69u8, 0x78u8],
                new_func(new_func(fixv.duplicate(), fixv.duplicate()), fixv.duplicate()),
            ),
        );
        env.push((vec![0x74u8, 0x72u8, 0x75u8, 0x65u8], Type::Bool));
        env.push((vec![0x66u8, 0x61u8, 0x6cu8, 0x73u8, 0x65u8], Type::Bool));
        proof {
            assert(env_model(env@) =~= globals_env(old(self).counter()));
        }
        env
    }
}

/// The builtins' types when the next fresh variable is `c`: `add` and `gt`
/// take two ints, `if` takes a bool and two values of a variable type,
/// `fix` takes a function from a variable type to itself.
pub open spec fn globals_env(c: u32) -> Seq<(Seq<u8>, Type)> {
    let ifv = Type::Var { id: c };
    let fixv = Type::Var { id: (c + 1) as u32 };
    seq![
        (seq![0x61u8, 0x64u8, 0x64u8], func(Type::Int, func(Type::Int, Type::Int))),
        (seq![0x67u8, 0x74u8], func(Type::Int, func(Type::Int, Type::Bool))),
        (seq![0x69u8, 0x66u8], func(Type::Bool, func(ifv, func(ifv, ifv)))),
        (seq![0x66u8, 0x69u8, 0x78u8], func(func(fixv, fixv), fixv)),
        (seq![0x74u8, 0x72u8, 0x75u8, 0x65u8], Type::Bool),
        (seq![0x66u8, 0x61u8, 0x6cu8, 0x73u8, 0x65u8], Type::Bool),
    ]
}

/// The builtins are typed as their meaning asks, whatever type `t` their
/// type variable stands for: `if` takes a `bool` and two branches of type
/// `t` and gives a `t` (so an `if` over int branches is an int); `fix`
/// takes a function from `t` to `t` and gives a `t`; `add` takes two ints
/// to an int; `gt` takes two ints to a `bool`; `true` and `false` are
/// `bool`s.
pub proof fn lemma_builtin_types(c: u32, t: Type)
    requires
        c + 2 < u32::MAX,
    ensures
        env_get(globals_env(c), seq![0x69u8, 0x66u8]) matches Some(ty) && subst_type(ty, c, t) == func(
            Type::Bool,
            func(t, func(t, t)),
        ),
        env_get(globals_env(c), seq![0x66u8, 0x69u8, 0x78u8]) matches Some(ty) && subst_type(ty, (c + 1) as u32, t)
            == func(func(t, t), t),
        env_get(globals_env(c), seq![0x61u8, 0x64u8, 0x64u8]) == Some(func(Type::Int, func(Type::Int, Type::Int))),
        env_get(globals_env(c), seq![0x67u8, 0x74u8]) == Some(func(Type::Int, func(Type::Int, Type::Bool))),
        env_get(globals_env(c), seq![0x74u8, 0x72u8, 0x75u8, 0x65u8]) == Some(Type::Bool),
        env_get(globals_env(c), seq![0x66u8, 0x61u8, 0x6cu8, 0x73u8, 0x65u8]) == Some(Type::Bool),
{
    let g = globals_env(c);
    let n_if = seq![0x69u8, 0x66u8];
    let n_fix = seq![0x66u8, 0x69u8, 0x78u8];
    let n_add = seq![0x61u8, 0x64u8, 0x64u8];
    let n_gt = seq![0x67u8, 0x74u8];
    let n_true = seq![0x74u8, 0x72u8, 0x75u8, 0x65u8];
    let n_false = seq![0x66u8, 0x61u8, 0x6cu8, 0x73u8, 0x65u8];
    assert(g.drop_last().drop_last().drop_last().drop_last().last().0 == n_gt);
    assert(n_if != n_fix && n_if != n_true && n_if != n_false && n_if.len() == 2);
    assert(n_fix != n_true && n_fix != n_false);
    assert(n_add != n_gt && n_add != n_if && n_add != n_fix && n_add != n_true && n_add != n_false);
    assert(n_gt != n_if && n_gt != n_fix && n_gt != n_true && n_gt != n_false);
    assert(n_true != n_false);
    assert(n_if[0] != n_fix[0]);
    assert(n_if[0] != n_true[0]);
    assert(n_if[0] != n_false[0]);
    assert(n_fix[1] != n_false[1]);
    assert(n_fix[0] != n_true[0]);
    assert(n_add[0] != n_gt[0] && n_add[0] != n_if[0] && n_add[0] != n_fix[0] && n_add[0] != n_true[0] && n_add[0] != n_false[0]);
    assert(n_gt[0] != n_if[0] && n_gt[0] != n_fix[0] && n_gt[0] != n_true[0] && n_gt[0] != n_false[0]);
    assert(n_true[0] != n_false[0]);
    let ifv = Type::Var { id: c };
    let fixv = Type::Var { id: (c + 1) as u32 };
    let g1 = g.drop_last();
    let g2 = g1.drop_last();
    let g3 = g2.drop_last();
    assert(g.last().0 == n_false && g1.last().0 == n_true && g2.last().0 == n_fix && g3.last().0 == n_if);
    assert(env_get(g, n_if) == env_get(g1, n_if));
    assert(env_get(g1, n_if) == env_get(g2, n_if));
    assert(env_get(g2, n_if) == env_get(g3, n_if));
    assert(env_get(g3, n_if) == Some(func(Type::Bool, func(ifv, func(ifv, ifv)))));
    assert(env_get(g, n_fix) == env_get(g1, n_fix));
    assert(env_get(g1, n_fix) == env_get(g2, n_fix));
    assert(env_get(g2, n_fix) == Some(func(func(fixv, fixv), fixv)));
    let g4 = g3.drop_last();
    let g5 = g4.drop_last();
    assert(g4.last().0 == n_gt && g5.last().0 == n_add);
    assert(env_get(g, n_gt) == env_get(g1, n_gt));
    assert(env_get(g1, n_gt) == env_get(g2, n_gt));
    assert(env_get(g2, n_gt) == env_get(g3, n_gt));
    assert(env_get(g3, n_gt) == env_get(g4, n_gt));
    assert(env_get(g, n_add) == env_get(g1, n_add));
    assert(env_get(g1, n_add) == env_get(g2, n_add));
    assert(env_get(g2, n_add) == env_get(g3, n_add));
    assert(env_get(g3, n_add) == env_get(g4, n_add));
    assert(env_get(g4, n_add) == env_get(g5, n_add));
    assert(env_get(g, n_true) == env_get(g1, n_true));
    assert(env_get(g1, n_true) == Some(Type::Bool));
    assert(env_get(g, n_false) == Some(Type::Bool));
    assert(subst_type(ifv, c, t) == t);
    assert(subst_type(Type::Bool, c, t) == Type::Bool);
    assert(subst_type(func(ifv, ifv), c, t) == func(t, t));
    assert(subst_type(func(ifv, func(ifv, ifv)), c, t) == func(t, func(t, t)));
    assert(subst_type(func(Type::Bool, func(ifv, func(ifv, ifv))), c, t) == func(Type::Bool, func(t, func(t, t))));
    assert(subst_type(fixv, (c + 1) as u32, t) == t);
    assert(subst_type(func(fixv, fixv), (c + 1) as u32, t) == func(t, t));
    assert(subst_type(func(func(fixv, fixv), fixv), (c + 1) as u32, t) == func(func(t, t), t));
}

/// The equations with the substitutions applied to both sides.
pub open spec fn apply_to_cons(cons: Seq<(Type, Type)>, subs: Seq<Substitution>) -> Seq<(Type, Type)> {
    cons.map_values(|c: (Type, Type)| (apply_all(c.0, subs), apply_all(c.1, subs)))
}

/// Solving the equations, last first: the last one is unified, and what
/// that gives is applied to the remaining equations and to `t`. `None`
/// where a unification goes deeper than `depth`.
pub open spec fn solve_spec(cons: Seq<(Type, Type)>, t: Type, depth: nat) -> Option<Type>
    decreases cons.len(),
{
    if cons.len() == 0 {
        Some(t)
    } else {
        match unify_spec(cons.last().0, cons.last().1, depth) {
            None => None,
            Some(subs) => solve_spec(apply_to_cons(cons.drop_last(), subs), apply_all(t, subs), depth),
        }
    }
}

/// How typing a line ends.
pub enum InferOutcome {
    /// The tokens ran out before a term was complete.
    NoTerm,
    /// A unification went deeper than the bound.
    TooDeep,
    /// The line's type.
    Typed(Type),
}

/// Solves the equations `cons` for the type `t`.
pub fn solve(cons: &mut Vec<(Type, Type)>, t: &mut Type, depth: u64) -> (ok: bool)
    ensures
        match solve_spec(old(cons)@, *old(t), depth as nat) {
            None => !ok,
            Some(tt) => ok && *final(t) == tt,
        },
{
    while cons.len() > 0
        invariant
            solve_spec(old(cons)@, *old(t), depth as nat) == solve_spec(cons@, *t, depth as nat),
        decreases cons@.len(),
    {
        let ghost k = cons@;
        let (lhs, rhs) = cons.pop().unwrap();
        proof {
            assert(cons@ =~= k.drop_last());
        }
        let mut subs: Vec<Substitution> = Vec::new();
        if !unify(lhs, rhs, &mut subs, depth) {
            return false;
        }
        proof {
            assert(subs@ =~= Seq::<Substitution>::empty() + subs@);
        }
        let ghost rest = cons@;
        let ghost t0 = *t;
        let mut j: usize = 0;
        proof {
            assert(subs@.take(0) =~= Seq::<Substitution>::empty());
            assert(apply_to_cons(rest, subs@.take(0)) =~= rest);
        }
        while j < subs.len()
            invariant
                j <= subs@.len(),
                cons@ == apply_to_cons(rest, subs@.take(j as int)),
                *t == apply_all(t0, subs@.take(j as int)),
            decreases subs@.len() - j,
        {
            let s = &subs[j];
            let ghost before = cons@;
            let mut i: usize = 0;
            while i < cons.len()
                invariant
                    i <= cons@.len(),
                    cons@.len() == before.len(),
                    forall|q: int| i <= q < cons@.len() ==> cons@[q] == before[q],
                    forall|q: int|
                        0 <= q < i ==> cons@[q] == (subst_type(before[q].0, s.0, s.1), subst_type(
                            before[q].1,
                            s.0,
                            s.1,
                        )),
                decreases cons@.len() - i,
            {
                let mut a = cons[i].0.duplicate();
                let mut b = cons[i].1.duplicate();
                a.sub(s);
                b.sub(s);
                cons.set(i, (a, b));
                i = i + 1;
            }
            t.sub(s);
            proof {
                assert(subs@.take(j + 1) =~= subs@.take(j as int).push(subs@[j as int]));
                lemma_apply_all_push(t0, subs@.take(j as int), subs@[j as int]);
                let target = apply_to_cons(rest, subs@.take(j + 1));
                assert forall|q: int| 0 <= q < rest.len() implies cons@[q] == #[trigger] target[q] by {
                    lemma_apply_all_push(rest[q].0, subs@.take(j as int), subs@[j as int]);
                    lemma_apply_all_push(rest[q].1, subs@.take(j as int), subs@[j as int]);
                }
                assert(cons@ =~= target);
            }
            j = j + 1;
        }
        proof {
            assert(subs@.take(subs@.len() as int) =~= subs@);
        }
    }
    true
}

impl State {
    /// Types one line: its first term is typed (tokens after it are
    /// ignored) and the equations solved with unifications at most `depth`
    /// deep.
    pub fn infer_line(&mut self, line: &str, env: &mut Vec<(Vec<u8>, Type)>, depth: u64) -> (r: InferOutcome)
        requires
            old(self).counter() + line.spec_bytes().len() < u32::MAX,
        ensures
            env_model(final(env)@) == env_model(old(env)@),
            match parse_type(
                crate::lexer::lex_tokens(line.spec_bytes()),
                0,
                env_model(old(env)@),
                old(self).counter() as int,
                Seq::<(Type, Type)>::empty(),
            ) {
                None => r is NoTerm,
                Some((t, _, c1, cons)) => final(self).counter() == c1 && match solve_spec(
                    cons,
                    t,
                    depth as nat,
                ) {
                    None => r is TooDeep,
                    Some(tt) => r == InferOutcome::Typed(tt),
                },
            },
    {
        let toks = crate::lexer::tokenize(line);
        let ghost lex = crate::lexer::lex_tokens(line.spec_bytes());
        proof {
            assert forall|i: int| 0 <= i < toks@.len() implies tokens_model(toks@)[i] == lex[i] by {
                crate::text::lemma_ascii_encode(lex[i]);
            }
            assert(tokens_model(toks@) =~= lex);
            crate::lexer::lemma_token_count(line.spec_bytes());
        }
        let mut cons: Vec<(Type, Type)> = Vec::new();
        let (mut t, _) = match self.parse_and_get_type(&toks, 0, env, &mut cons) {
            None => return InferOutcome::NoTerm,
            Some(x) => x,
        };
        if solve(&mut cons, &mut t, depth) {
            InferOutcome::Typed(t)
        } else {
            InferOutcome::TooDeep
        }
    }
}

/// The text of a type: `bool`, `int`, `v` and the id, or `(lam A R)`.
pub open spec fn type_text(t: Type) -> Seq<u8>
    decreases t,
{
    match t {
        Type::Bool => seq![0x62u8, 0x6fu8, 0x6fu8, 0x6cu8],
        Type::Int => seq![0x69u8, 0x6eu8, 0x74u8],
        Type::Var { id } => seq![0x76u8] + crate::decimal::decimal_text(id as nat),
        Type::Func { arg, ret } => seq![0x28u8, 0x6cu8, 0x61u8, 0x6du8, 0x20u8] + type_text(*arg)
            + seq![0x20u8] + type_text(*ret) + seq![0x29u8],
    }
}

proof fn lemma_type_text_ascii(t: Type)
    ensures
        crate::text::all_ascii(type_text(t)),
    decreases t,
{
    match t {
        Type::Var { id } => {
            crate::decimal::lemma_decimal_text_digits(id as nat);
        },
        Type::Func { arg, ret } => {
            lemma_type_text_ascii(*arg);
            lemma_type_text_ascii(*ret);
        },
        _ => {},
    }
}

fn push_bytes(out: &mut Vec<u8>, lit: &[u8])
    ensures
        final(out)@ == old(out)@ + lit@,
{
    out.extend_from_slice(lit);
    proof {
        assert(out@ =~= old(out)@ + lit@);
    }
}

fn write_type(t: &Type, out: &mut Vec<u8>)
    ensures
        final(out)@ == old(out)@ + type_text(*t),
    decreases t,
{
    match t {
        Type::Bool => {
            let lit: Vec<u8> = vec![0x62u8, 0x6fu8, 0x6fu8, 0x6cu8];
            push_bytes(out, lit.as_slice());
        },
        Type::Int => {
            let lit: Vec<u8> = vec![0x69u8, 0x6eu8, 0x74u8];
            push_bytes(out, lit.as_slice());
        },
        Type::Var { id } => {
            out.push(0x76u8);
            crate::decimal::push_decimal(out, *id as u64);
            proof {
                assert(out@ =~= old(out)@ + type_text(*t));
            }
        },
        Type::Func { arg, ret } => {
            let lit: Vec<u8> = vec![0x28u8, 0x6cu8, 0x61u8, 0x6du8, 0x20u8];
            push_bytes(out, lit.as_slice());
            write_type(&**arg, out);
            out.push(0x20u8);
            write_type(&**ret, out);
            out.push(0x29u8);
            proof {
                assert(out@ =~= old(out)@ + type_text(*t));
            }
        },
    }
}

impl Type {
    /// The text of the type (see `type_text`).
    pub fn to_string(&self) -> (s: String)
        ensures
            s@ == crate::text::ascii_chars(type_text(*self)),
    {
        let mut out: Vec<u8> = Vec::new();
        write_type(self, &mut out);
        proof {
            assert(out@ =~= type_text(*self));
            lemma_type_text_ascii(*self);
        }
        crate::text::ascii_string(out)
    }
}

} // verus!
