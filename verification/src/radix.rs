//! Positional numerals over an arbitrary base: the value of a little-endian
//! digit sequence and the facts about it that the arithmetic code needs.
use vstd::prelude::*;

verus! {

/// `base` raised to the power `e`.
pub open spec fn pow_nat(base: nat, e: nat) -> nat
    decreases e,
{
    if e == 0 {
        1
    } else {
        base * pow_nat(base, (e - 1) as nat)
    }
}

/// Value of the little-endian digit sequence `s` in the given base:
/// `s[0] + s[1] * base + s[2] * base^2 + ...`.
pub open spec fn horner(s: Seq<u64>, base: nat) -> nat
    decreases s.len(),
{
    if s.len() == 0 {
        0
    } else {
        s[0] as nat + base * horner(s.drop_first(), base)
    }
}

/// The first `k` digits of `s`.
pub open spec fn prefix(s: Seq<u64>, k: usize) -> Seq<u64> {
    s.take(k as int)
}

/// Every digit of `s` is below `base`.
pub open spec fn digits_below(s: Seq<u64>, base: nat) -> bool {
    forall|i: int| 0 <= i < s.len() ==> (#[trigger] s[i]) < base
}

/// The most significant digit, if any, is not zero.
pub open spec fn no_top_zero(s: Seq<u64>) -> bool {
    s.len() > 0 ==> s.last() != 0
}

pub proof fn lemma_pow_positive(base: nat, e: nat)
    requires
        base > 0,
    ensures
        pow_nat(base, e) > 0,
    decreases e,
{
    if e > 0 {
        lemma_pow_positive(base, (e - 1) as nat);
        assert(base * pow_nat(base, (e - 1) as nat) > 0) by (nonlinear_arith)
            requires
                base > 0,
                pow_nat(base, (e - 1) as nat) > 0,
        ;
    }
}

pub proof fn lemma_pow_add(base: nat, a: nat, b: nat)
    ensures
        pow_nat(base, a + b) == pow_nat(base, a) * pow_nat(base, b),
    decreases a,
{
    let q = pow_nat(base, b);
    if a > 0 {
        lemma_pow_add(base, (a - 1) as nat, b);
        let p = pow_nat(base, (a - 1) as nat);
        assert(((a - 1) as nat + b) as nat == (a + b - 1) as nat);
        assert(pow_nat(base, a + b) == base * pow_nat(base, (a + b - 1) as nat));
        assert(pow_nat(base, a) == base * p);
        assert(base * (p * q) == (base * p) * q) by (nonlinear_arith);
    } else {
        assert(pow_nat(base, 0) == 1);
        assert(1 * q == q);
    }
}

pub proof fn lemma_pow_monotone(base: nat, a: nat, b: nat)
    requires
        base > 0,
        a <= b,
    ensures
        pow_nat(base, a) <= pow_nat(base, b),
    decreases b,
{
    if a < b {
        lemma_pow_monotone(base, a, (b - 1) as nat);
        lemma_pow_positive(base, (b - 1) as nat);
        let p = pow_nat(base, (b - 1) as nat);
        assert(p <= base * p) by (nonlinear_arith)
            requires
                base > 0,
                p > 0,
        ;
    }
}

/// The value of a concatenation.
pub proof fn lemma_horner_concat(s: Seq<u64>, t: Seq<u64>, base: nat)
    ensures
        horner(s + t, base) == horner(s, base) + pow_nat(base, s.len()) * horner(t, base),
    decreases s.len(),
{
    let h = horner(t, base);
    if s.len() == 0 {
        assert(s + t =~= t);
        assert(pow_nat(base, 0) == 1);
        assert(1 * h == h);
    } else {
        assert((s + t).drop_first() =~= s.drop_first() + t);
        assert((s + t)[0] == s[0]);
        lemma_horner_concat(s.drop_first(), t, base);
        let a = horner(s.drop_first(), base);
        let p = pow_nat(base, (s.len() - 1) as nat);
        assert(pow_nat(base, s.len()) == base * p);
        assert(base * (a + p * h) == base * a + (base * p) * h) by (nonlinear_arith);
    }
}

/// Appending a digit at the top.
pub proof fn lemma_horner_push(s: Seq<u64>, x: u64, base: nat)
    ensures
        horner(s.push(x), base) == horner(s, base) + x * pow_nat(base, s.len()),
{
    let one = seq![x];
    assert(s.push(x) =~= s + one);
    lemma_horner_concat(s, one, base);
    assert(one.drop_first() =~= Seq::<u64>::empty());
    assert(horner(Seq::<u64>::empty(), base) == 0);
    assert(base * 0 == 0);
    assert(horner(one, base) == x);
    let p = pow_nat(base, s.len());
    assert(p * x == x * p) by (nonlinear_arith);
}

/// The value of a prefix and of the rest.
pub proof fn lemma_horner_split(s: Seq<u64>, i: int, base: nat)
    requires
        0 <= i <= s.len(),
    ensures
        horner(s, base) == horner(s.subrange(0, i), base) + pow_nat(base, i as nat) * horner(
            s.subrange(i, s.len() as int),
            base,
        ),
{
    assert(s =~= s.subrange(0, i) + s.subrange(i, s.len() as int));
    lemma_horner_concat(s.subrange(0, i), s.subrange(i, s.len() as int), base);
}

/// Digits below the base give a value below `base^len`.
pub proof fn lemma_horner_upper(s: Seq<u64>, base: nat)
    requires
        base > 0,
        digits_below(s, base),
    ensures
        horner(s, base) < pow_nat(base, s.len()),
    decreases s.len(),
{
    if s.len() > 0 {
        let t = s.drop_first();
        assert(digits_below(t, base)) by {
            assert forall|i: int| 0 <= i < t.len() implies (#[trigger] t[i]) < base by {
                assert(t[i] == s[i + 1]);
            }
        }
        lemma_horner_upper(t, base);
        let h = horner(t, base);
        let p = pow_nat(base, t.len());
        let d = s[0] as nat;
        assert(d + base * h < base * p) by (nonlinear_arith)
            requires
                d < base,
                h < p,
                h >= 0,
        ;
    }
}

/// A non-zero top digit gives a value of at least `base^(len - 1)`.
pub proof fn lemma_horner_lower(s: Seq<u64>, base: nat)
    requires
        s.len() > 0,
        s.last() != 0,
    ensures
        horner(s, base) >= pow_nat(base, (s.len() - 1) as nat),
{
    let init = s.drop_last();
    assert(s =~= init.push(s.last()));
    lemma_horner_push(init, s.last(), base);
    let p = pow_nat(base, init.len());
    let x = s.last() as nat;
    assert(x * p >= p) by (nonlinear_arith)
        requires
            x >= 1,
    ;
}

/// All-zero digit sequences have value zero.
pub proof fn lemma_horner_zeros(s: Seq<u64>, base: nat)
    requires
        forall|i: int| 0 <= i < s.len() ==> s[i] == 0,
    ensures
        horner(s, base) == 0,
    decreases s.len(),
{
    if s.len() > 0 {
        let t = s.drop_first();
        assert forall|i: int| 0 <= i < t.len() implies t[i] == 0 by {
            assert(t[i] == s[i + 1]);
        }
        lemma_horner_zeros(t, base);
        assert(base * 0 == 0);
    }
}

/// Two digit sequences of the same length with digits below the base and the
/// same value are equal.
pub proof fn lemma_horner_injective(s: Seq<u64>, t: Seq<u64>, base: nat)
    requires
        base > 0,
        s.len() == t.len(),
        digits_below(s, base),
        digits_below(t, base),
        horner(s, base) == horner(t, base),
    ensures
        s == t,
    decreases s.len(),
{
    if s.len() > 0 {
        let s1 = s.drop_first();
        let t1 = t.drop_first();
        assert(digits_below(s1, base)) by {
            assert forall|i: int| 0 <= i < s1.len() implies (#[trigger] s1[i]) < base by {
                assert(s1[i] == s[i + 1]);
            }
        }
        assert(digits_below(t1, base)) by {
            assert forall|i: int| 0 <= i < t1.len() implies (#[trigger] t1[i]) < base by {
                assert(t1[i] == t[i + 1]);
            }
        }
        let a = s[0] as int;
        let b = t[0] as int;
        let x = horner(s1, base) as int;
        let y = horner(t1, base) as int;
        assert(a == b && x == y) by (nonlinear_arith)
            requires
                0 <= a < base,
                0 <= b < base,
                x >= 0,
                y >= 0,
                a + base * x == b + base * y,
        {
            if x < y {
                assert(base * x + base <= base * y);
            } else if y < x {
                assert(base * y + base <= base * x);
            }
        }
        lemma_horner_injective(s1, t1, base);
        assert(s =~= seq![s[0]] + s1);
        assert(t =~= seq![t[0]] + t1);
    }
}

} // verus!
