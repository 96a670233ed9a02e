//! Filling an exact capacity from items that can be taken any number of
//! times, each with a cost and a capacity, at the least total cost.
use vstd::prelude::*;

verus! {

/// The best way to fill exactly `n` with the first `i` items (each item a
/// `(cost, capacity)` pair, usable any number of times): the least total
/// cost and the item taken last, the earliest item on ties; `None` where
/// `n` cannot be filled so. Items of capacity 0 are never taken.
pub open spec fn best_upto(items: Seq<(u64, usize)>, n: nat, i: nat) -> Option<(int, nat)>
    decreases n, i, 1nat,
{
    if i == 0 || i > items.len() {
        None
    } else {
        better(best_upto(items, n, (i - 1) as nat), candidate(items, n, (i - 1) as nat))
    }
}

/// Filling `n` by taking item `i` last, after a best filling of the rest.
pub open spec fn candidate(items: Seq<(u64, usize)>, n: nat, i: nat) -> Option<(int, nat)>
    decreases n, i, 0nat,
{
    if i < items.len() && 1 <= items[i as int].1 <= n {
        let cost = items[i as int].0;
        let cap = items[i as int].1;
        if n == cap {
            Some((cost as int, i))
        } else {
            match best_upto(items, (n - cap) as nat, items.len()) {
                Some(sub) => Some((cost + sub.0, i)),
                None => None,
            }
        }
    } else {
        None
    }
}

/// The cheaper of two fillings, the first on ties.
pub open spec fn better(a: Option<(int, nat)>, b: Option<(int, nat)>) -> Option<(int, nat)> {
    match (a, b) {
        (Some(x), Some(y)) => if y.0 < x.0 { Some(y) } else { Some(x) },
        (Some(x), None) => Some(x),
        (None, y) => y,
    }
}

/// The best way to fill exactly `n` (0 is filled by taking nothing).
pub open spec fn best_fill(items: Seq<(u64, usize)>, n: nat) -> Option<(int, nat)> {
    if n == 0 {
        Some((0, 0))
    } else {
        best_upto(items, n, items.len())
    }
}

/// The least cost of filling exactly `n`, or `u64::MAX` where it cannot be
/// filled.
pub open spec fn fill_cost(items: Seq<(u64, usize)>, n: nat) -> int {
    match best_fill(items, n) {
        Some(b) => b.0,
        None => u64::MAX as int,
    }
}

/// How many times each item is taken in the best filling of `n` (none
/// where `n` cannot be filled).
pub open spec fn fill_counts(items: Seq<(u64, usize)>, n: nat) -> Seq<nat>
    decreases n,
{
    if n == 0 {
        Seq::new(items.len(), |k: int| 0nat)
    } else {
        match best_upto(items, n, items.len()) {
            Some(b) => {
                let i = b.1 as int;
                if 0 <= i < items.len() && 1 <= items[i].1 <= n {
                    let c = fill_counts(items, (n - items[i].1) as nat);
                    c.update(i, c[i] + 1)
                } else {
                    Seq::new(items.len(), |k: int| 0nat)
                }
            },
            None => Seq::new(items.len(), |k: int| 0nat),
        }
    }
}

/// A chosen item is a real one, of capacity between 1 and `n`, and the
/// rest of the filling is a best filling of what is left.
proof fn lemma_best_upto(items: Seq<(u64, usize)>, n: nat, i: nat, m: int)
    requires
        n >= 1,
        m >= 0,
        forall|k: int| 0 <= k < items.len() ==> items[k].0 <= m,
    ensures
        best_upto(items, n, i) matches Some(b) ==> {
            &&& b.1 < i
            &&& b.1 < items.len()
            &&& 1 <= items[b.1 as int].1 <= n
            &&& best_fill(items, (n - items[b.1 as int].1) as nat) matches Some(sub)
            &&& b.0 == items[b.1 as int].0 + sub.0
            &&& 0 <= b.0 <= n * m
        },
    decreases n, i, 1nat,
{
    if i == 0 || i > items.len() {
    } else {
        lemma_best_upto(items, n, (i - 1) as nat, m);
        lemma_candidate(items, n, (i - 1) as nat, m);
    }
}

proof fn lemma_candidate(items: Seq<(u64, usize)>, n: nat, i: nat, m: int)
    requires
        n >= 1,
        m >= 0,
        forall|k: int| 0 <= k < items.len() ==> items[k].0 <= m,
    ensures
        candidate(items, n, i) matches Some(c) ==> {
            &&& c.1 == i
            &&& i < items.len()
            &&& 1 <= items[i as int].1 <= n
            &&& best_fill(items, (n - items[i as int].1) as nat) matches Some(sub)
            &&& c.0 == items[i as int].0 + sub.0
            &&& 0 <= c.0 <= n * m
        },
    decreases n, i, 0nat,
{
    if i < items.len() && 1 <= items[i as int].1 <= n {
        let cap = items[i as int].1;
        let cost = items[i as int].0;
        if n == cap {
            assert(cost <= n * m) by (nonlinear_arith)
                requires
                    cost <= m,
                    n >= 1,
                    m >= 0,
            ;
        } else {
            lemma_best_upto(items, (n - cap) as nat, items.len(), m);
            match best_upto(items, (n - cap) as nat, items.len()) {
                Some(sub) => {
                    assert(cost + sub.0 <= n * m) by (nonlinear_arith)
                        requires
                            cost <= m,
                            sub.0 <= (n - cap) * m,
                            cap >= 1,
                            m >= 0,
                    ;
                },
                None => {},
            }
        }
    }
}

proof fn lemma_fill_counts_len(items: Seq<(u64, usize)>, n: nat)
    ensures
        fill_counts(items, n).len() == items.len(),
    decreases n,
{
    if n > 0 {
        match best_upto(items, n, items.len()) {
            Some(b) => {
                let i = b.1 as int;
                if 0 <= i < items.len() && 1 <= items[i].1 <= n {
                    lemma_fill_counts_len(items, (n - items[i].1) as nat);
                }
            },
            None => {},
        }
    }
}

/// Entry `k` of the table: the least cost of filling `k` and the item taken
/// last, or `u64::MAX` and no item where `k` cannot be filled (0 is filled
/// at no cost with no item).
pub open spec fn entry_ok(items: Seq<(u64, usize)>, k: nat, e: (u64, Option<usize>)) -> bool {
    if k == 0 {
        e == (0u64, None::<usize>)
    } else {
        match best_upto(items, k, items.len()) {
            Some(b) => e.0 == b.0 && e.1 == Some(b.1 as usize),
            None => e.0 == u64::MAX && e.1 is None,
        }
    }
}

/// The running best over the first `j` items, as the table holds it.
pub open spec fn running_ok(items: Seq<(u64, usize)>, n: nat, j: nat, best: u64, choice: Option<usize>) -> bool {
    match best_upto(items, n, j) {
        Some(b) => best == b.0 && choice == Some(b.1 as usize),
        None => best == u64::MAX && choice is None,
    }
}

/// Every candidate cost for the sizes below `n`, and for the first `i`
/// items at size `n`, is below `u64::MAX`.
pub open spec fn fits_below(items: Seq<(u64, usize)>, n: nat, i: nat) -> bool {
    forall|n2: nat, i2: nat|
        1 <= n2 && (n2 < n || (n2 == n && i2 < i)) && i2 < items.len() ==> (#[trigger] candidate(items, n2, i2) matches Some(
            c,
        ) ==> c.0 < u64::MAX)
}

/// Every candidate cost for the sizes up to `p` is below `u64::MAX`.
pub open spec fn fill_fits(items: Seq<(u64, usize)>, p: nat) -> bool {
    fits_below(items, p + 1, 0)
}

/// The best filling is the filling of one of the items.
proof fn lemma_best_is_candidate(items: Seq<(u64, usize)>, n: nat, i: nat)
    ensures
        best_upto(items, n, i) matches Some(b) ==> b.1 < i && b.1 < items.len() && candidate(items, n, b.1) == Some(b),
    decreases i,
{
    if i > 0 && i <= items.len() {
        lemma_best_is_candidate(items, n, (i - 1) as nat);
        let c = candidate(items, n, (i - 1) as nat);
        if c is Some {
            assert(c.unwrap().1 == i - 1);
        }
    }
}

/// The cost of filling `n` by taking item `j` last, read off the table of
/// the smaller fillings; `false` where that cost is not below `u64::MAX`.
fn candidate_at(items: &Vec<(u64, usize)>, subs: &Vec<(u64, Option<usize>)>, n: usize, j: usize) -> (r: (bool, Option<u64>))
    requires
        j < items@.len(),
        n >= 1,
        subs@.len() == n,
        forall|k: int| 0 <= k < n ==> entry_ok(items@, k as nat, #[trigger] subs@[k]),
        fits_below(items@, n as nat, 0),
    ensures
        r.0 <==> !(candidate(items@, n as nat, j as nat) matches Some(c) && c.0 >= u64::MAX),
        r.0 ==> match candidate(items@, n as nat, j as nat) {
            Some(c) => r.1 == Some(c.0 as u64) && c.1 == j && 0 <= c.0,
            None => r.1 is None,
        },
{
    let (cost, cap) = items[j];
    if cap == 0 || cap > n {
        return (true, None);
    }
    let (scost, _) = subs[n - cap];
    proof {
        assert(entry_ok(items@, (n - cap) as nat, subs@[n - cap]));
        if n != cap {
            lemma_best_is_candidate(items@, (n - cap) as nat, items@.len());
            let sub = best_upto(items@, (n - cap) as nat, items@.len());
            if sub is Some {
                let b = sub.unwrap();
                assert(candidate(items@, (n - cap) as nat, b.1) == Some(b));
            }
        }
    }
    if scost == u64::MAX {
        return (true, None);
    }
    match cost.checked_add(scost) {
        Some(t) => {
            if t == u64::MAX {
                (false, None)
            } else {
                (true, Some(t))
            }
        },
        None => (false, None),
    }
}

/// The least cost of filling exactly `p` from `items` (pairs of cost and
/// capacity, each usable any number of times), or `u64::MAX` where `p`
/// cannot be filled, and how many times the best filling takes each item.
/// `None` where some candidate cost on the way is not below `u64::MAX`.
pub fn cheapest_fill(items: &Vec<(u64, usize)>, p: usize) -> (r: Option<(u64, Vec<usize>)>)
    requires
        p < usize::MAX,
        forall|k: int| 0 <= k < items@.len() ==> (#[trigger] items@[k]).1 >= 1,
    ensures
        r is Some <==> fill_fits(items@, p as nat),
        r matches Some(res) ==> {
            &&& res.0 == fill_cost(items@, p as nat)
            &&& res.1@.len() == items@.len()
            &&& forall|k: int| 0 <= k < items@.len() ==> res.1@[k] == fill_counts(items@, p as nat)[k]
        },
{
    let mut subs: Vec<(u64, Option<usize>)> = Vec::new();
    subs.push((0, None));
    let mut n: usize = 1;
    while n <= p
        invariant
            1 <= n <= p + 1,
            p < usize::MAX,
            forall|k: int| 0 <= k < items@.len() ==> (#[trigger] items@[k]).1 >= 1,
            subs@.len() == n,
            forall|k: int| 0 <= k < n ==> entry_ok(items@, k as nat, #[trigger] subs@[k]),
            fits_below(items@, n as nat, 0),
        decreases p + 1 - n,
    {
        let mut best: u64 = u64::MAX;
        let mut choice: Option<usize> = None;
        let mut j: usize = 0;
        while j < items.len()
            invariant
                1 <= n <= p,
                p < usize::MAX,
                forall|k: int| 0 <= k < items@.len() ==> (#[trigger] items@[k]).1 >= 1,
                subs@.len() == n,
                forall|k: int| 0 <= k < n ==> entry_ok(items@, k as nat, #[trigger] subs@[k]),
                fits_below(items@, n as nat, 0),
                fits_below(items@, n as nat, j as nat),
                j <= items@.len(),
                running_ok(items@, n as nat, j as nat, best, choice),
            decreases items@.len() - j,
        {
            let (ok, cand) = candidate_at(items, &subs, n, j);
            if !ok {
                proof {
                    assert(!fill_fits(items@, p as nat)) by {
                        let c = candidate(items@, n as nat, j as nat);
                        assert(c is Some && c.unwrap().0 >= u64::MAX);
                    }
                }
                return None;
            }
            match cand {
                Some(total) => {
                    if best > total {
                        best = total;
                        choice = Some(j);
                    }
                },
                None => {},
            }
            proof {
                assert(best_upto(items@, n as nat, (j + 1) as nat) == better(
                    best_upto(items@, n as nat, j as nat),
                    candidate(items@, n as nat, j as nat),
                ));
                assert(fits_below(items@, n as nat, (j + 1) as nat)) by {
                    assert forall|n2: nat, i2: nat|
                        1 <= n2 && (n2 < n || (n2 == n && i2 < j + 1)) && i2 < items@.len() implies (#[trigger] candidate(
                        items@,
                        n2,
                        i2,
                    ) matches Some(c) ==> c.0 < u64::MAX) by {
                        if n2 == n && i2 == j {
                        }
                    }
                }
            }
            j = j + 1;
        }
        proof {
            assert(entry_ok(items@, n as nat, (best, choice)));
            assert(fits_below(items@, (n + 1) as nat, 0)) by {
                assert forall|n2: nat, i2: nat|
                    1 <= n2 && (n2 < n + 1 || (n2 == n + 1 && i2 < 0)) && i2 < items@.len() implies (#[trigger] candidate(
                    items@,
                    n2,
                    i2,
                ) matches Some(c) ==> c.0 < u64::MAX) by {
                    if n2 == n {
                        assert(1 <= n2 && (n2 < n || (n2 == n && i2 < j)) && i2 < items@.len());
                    }
                }
            }
        }
        subs.push((best, choice));
        n = n + 1;
    }
    let cost = subs[p].0;
    proof {
        assert(entry_ok(items@, p as nat, subs@[p as int]));
    }
    let nitems = items.len();
    let mut counts: Vec<usize> = Vec::new();
    let mut k: usize = 0;
    while k < items.len()
        invariant
            k <= items@.len(),
            counts@.len() == k,
            forall|i: int| 0 <= i < k ==> counts@[i] == 0,
        decreases items@.len() - k,
    {
        counts.push(0);
        k = k + 1;
    }
    let mut rest: usize = p;
    let mut done = false;
    while !done
        invariant
            rest <= p,
            p < usize::MAX,
            subs@.len() == p + 1,
            forall|k: int| 0 <= k <= p ==> entry_ok(items@, k as nat, #[trigger] subs@[k]),
            forall|k: int| 0 <= k < items@.len() ==> (#[trigger] items@[k]).1 >= 1,
            nitems == items@.len(),
            counts@.len() == items@.len(),
            forall|i: int| 0 <= i < items@.len() ==> #[trigger] counts@[i] <= p - rest,
            done ==> forall|i: int| 0 <= i < items@.len() ==> #[trigger] fill_counts(items@, p as nat)[i] == counts@[i],
            !done ==> forall|i: int| 0 <= i < items@.len() ==> #[trigger] fill_counts(items@, p as nat)[i] == counts@[i]
                + fill_counts(items@, rest as nat)[i],
        decreases rest + (if done { 0int } else { 1int }),
    {
        proof {
            assert(entry_ok(items@, rest as nat, subs@[rest as int]));
        }
        match subs[rest].1 {
            Some(i) => {
                proof {
                    assert(rest >= 1);
                    lemma_best_upto(items@, rest as nat, items@.len(), u64::MAX as int);
                    let b = best_upto(items@, rest as nat, items@.len())->0;
                    assert(i == b.1);
                    assert(items@[i as int].1 <= rest);
                    lemma_fill_counts_len(items@, (rest - items@[i as int].1) as nat);
                }
                let ghost before = counts@;
                let c = counts[i];
                counts.set(i, c + 1);
                let ghost old_rest = rest;
                rest = rest - items[i].1;
                proof {
                    let fc = fill_counts(items@, old_rest as nat);
                    let fr = fill_counts(items@, rest as nat);
                    assert(fc == fr.update(i as int, fr[i as int] + 1));
                    assert forall|q: int| 0 <= q < items@.len() implies #[trigger] fill_counts(items@, p as nat)[q] == counts@[q]
                        + fill_counts(items@, rest as nat)[q] by {
                        assert(fill_counts(items@, p as nat)[q] == before[q] + fc[q]);
                        if q == i as int {
                            assert(counts@[q] == before[q] + 1);
                            assert(fc[q] == fr[q] + 1);
                        } else {
                            assert(counts@[q] == before[q]);
                            assert(fc[q] == fr[q]);
                        }
                    }
                }
            },
            None => {
                proof {
                    let fr = fill_counts(items@, rest as nat);
                    assert forall|q: int| 0 <= q < items@.len() implies fr[q] == 0 by {}
                }
                done = true;
            },
        }
    }
    Some((cost, counts))
}

/// The capacity filled by taking item `k` `c[k]` times.
pub open spec fn total_cap(items: Seq<(u64, usize)>, c: Seq<nat>) -> int
    decreases c.len(),
{
    if c.len() == 0 {
        0
    } else {
        total_cap(items, c.drop_last()) + c.last() * items[c.len() - 1].1
    }
}

/// The cost of taking item `k` `c[k]` times.
pub open spec fn total_cost(items: Seq<(u64, usize)>, c: Seq<nat>) -> int
    decreases c.len(),
{
    if c.len() == 0 {
        0
    } else {
        total_cost(items, c.drop_last()) + c.last() * items[c.len() - 1].0
    }
}

/// Changing one count changes the totals by that item's share.
proof fn lemma_totals_update(items: Seq<(u64, usize)>, c: Seq<nat>, k: int, x: nat)
    requires
        0 <= k < c.len(),
    ensures
        total_cap(items, c.update(k, x)) == total_cap(items, c) + (x - c[k]) * items[k].1,
        total_cost(items, c.update(k, x)) == total_cost(items, c) + (x - c[k]) * items[k].0,
    decreases c.len(),
{
    let c2 = c.update(k, x);
    if k < c.len() - 1 {
        assert(c2.drop_last() =~= c.drop_last().update(k, x));
        lemma_totals_update(items, c.drop_last(), k, x);
    } else {
        assert(c2.drop_last() =~= c.drop_last());
        assert(x * items[k].1 == c[k] * items[k].1 + (x - c[k]) * items[k].1) by (nonlinear_arith);
        assert(x * items[k].0 == c[k] * items[k].0 + (x - c[k]) * items[k].0) by (nonlinear_arith);
    }
}

/// Some count is positive where the filled capacity is.
proof fn lemma_some_taken(items: Seq<(u64, usize)>, c: Seq<nat>)
    requires
        total_cap(items, c) > 0,
    ensures
        exists|k: int| 0 <= k < c.len() && c[k] > 0,
    decreases c.len(),
{
    if c.len() > 0 {
        if c.last() > 0 {
            assert(c[c.len() - 1] > 0);
        } else {
            assert(c.last() * items[c.len() - 1].1 == 0);
            lemma_some_taken(items, c.drop_last());
            let k = choose|k: int| 0 <= k < c.drop_last().len() && c.drop_last()[k] > 0;
            assert(c[k] > 0);
        }
    }
}

/// No counts give no capacity and no cost.
proof fn lemma_totals_zero(items: Seq<(u64, usize)>, c: Seq<nat>)
    requires
        forall|k: int| 0 <= k < c.len() ==> c[k] == 0,
    ensures
        total_cap(items, c) == 0,
        total_cost(items, c) == 0,
    decreases c.len(),
{
    if c.len() > 0 {
        assert forall|k: int| 0 <= k < c.drop_last().len() implies c.drop_last()[k] == 0 by {
            assert(c.drop_last()[k] == c[k]);
        }
        lemma_totals_zero(items, c.drop_last());
        assert(c.last() == 0);
        assert(c.last() * items[c.len() - 1].1 == 0);
        assert(c.last() * items[c.len() - 1].0 == 0);
    }
}

/// The best over the first `i` items is no worse than taking any one of
/// them last.
proof fn lemma_best_upto_min(items: Seq<(u64, usize)>, n: nat, i: nat, k: int, v: int)
    requires
        0 <= k < i <= items.len(),
        1 <= items[k].1 <= n,
        best_fill(items, (n - items[k].1) as nat) matches Some(sub) && sub.0 == v,
    ensures
        best_upto(items, n, i) matches Some(b) && b.0 <= items[k].0 + v,
    decreases i,
{
    if k < i - 1 {
        lemma_best_upto_min(items, n, (i - 1) as nat, k, v);
    } else {
        assert(candidate(items, n, k as nat) matches Some(c) && c.0 == items[k].0 + v);
    }
}

/// Taking the counts the best filling reports fills `n` exactly, at the
/// best cost.
pub proof fn lemma_fill_counts_realize(items: Seq<(u64, usize)>, n: nat)
    requires
        forall|k: int| 0 <= k < items.len() ==> (#[trigger] items[k]).1 >= 1,
        best_fill(items, n) is Some,
    ensures
        fill_counts(items, n).len() == items.len(),
        total_cap(items, fill_counts(items, n)) == n,
        total_cost(items, fill_counts(items, n)) == best_fill(items, n).unwrap().0,
    decreases n,
{
    lemma_fill_counts_len(items, n);
    if n == 0 {
        lemma_totals_zero(items, fill_counts(items, n));
    } else {
        lemma_best_upto(items, n, items.len(), u64::MAX as int);
        let b = best_upto(items, n, items.len())->0;
        let i = b.1 as int;
        let rest = (n - items[i].1) as nat;
        lemma_fill_counts_realize(items, rest);
        let c = fill_counts(items, rest);
        lemma_fill_counts_len(items, rest);
        lemma_totals_update(items, c, i, c[i] + 1);
        assert(fill_counts(items, n) == c.update(i, c[i] + 1));
        assert(((c[i] + 1) - c[i]) * items[i].1 == items[i].1) by (nonlinear_arith);
        assert(((c[i] + 1) - c[i]) * items[i].0 == items[i].0) by (nonlinear_arith);
    }
}

/// No way of taking items that fills `n` exactly costs less than the best
/// filling, and where there is such a way there is a best filling.
pub proof fn lemma_fill_is_cheapest(items: Seq<(u64, usize)>, n: nat, c: Seq<nat>)
    requires
        forall|k: int| 0 <= k < items.len() ==> (#[trigger] items[k]).1 >= 1,
        c.len() == items.len(),
        total_cap(items, c) == n,
    ensures
        best_fill(items, n) matches Some(b) && b.0 <= total_cost(items, c),
    decreases n,
{
    if n == 0 {
        assert forall|k: int| 0 <= k < c.len() implies c[k] == 0 by {
            if c[k] > 0 {
                lemma_cap_positive_part(items, c, k);
            }
        }
        lemma_totals_zero(items, c);
    } else {
        lemma_some_taken(items, c);
        let k = choose|k: int| 0 <= k < c.len() && c[k] > 0;
        let c2 = c.update(k, (c[k] - 1) as nat);
        lemma_totals_update(items, c2, k, c[k]);
        assert(c2.update(k, c[k]) =~= c);
        let cap = items[k].1;
        assert((c[k] - c2[k]) * cap == cap) by (nonlinear_arith)
            requires
                c2[k] == c[k] - 1,
        ;
        assert((c[k] - c2[k]) * items[k].0 == items[k].0) by (nonlinear_arith)
            requires
                c2[k] == c[k] - 1,
        ;
        assert(total_cap(items, c2) == n - cap);
        lemma_cap_nonneg(items, c2);
        lemma_fill_is_cheapest(items, (n - cap) as nat, c2);
        let sub = best_fill(items, (n - cap) as nat)->0;
        lemma_best_upto_min(items, n, items.len(), k, sub.0);
    }
}

/// Counts give a capacity of at least that of any one item they take.
proof fn lemma_cap_positive_part(items: Seq<(u64, usize)>, c: Seq<nat>, k: int)
    requires
        forall|q: int| 0 <= q < items.len() ==> (#[trigger] items[q]).1 >= 1,
        c.len() <= items.len(),
        0 <= k < c.len(),
        c[k] > 0,
    ensures
        total_cap(items, c) >= 1,
    decreases c.len(),
{
    lemma_cap_nonneg(items, c.drop_last());
    if k == c.len() - 1 {
        assert(c[k] * items[k].1 >= 1) by (nonlinear_arith)
            requires
                c[k] >= 1,
                items[k].1 >= 1,
        ;
    } else {
        lemma_cap_positive_part(items, c.drop_last(), k);
        assert(c.last() * items[c.len() - 1].1 >= 0) by (nonlinear_arith);
    }
}

/// Counts never give a negative capacity.
proof fn lemma_cap_nonneg(items: Seq<(u64, usize)>, c: Seq<nat>)
    ensures
        total_cap(items, c) >= 0,
    decreases c.len(),
{
    if c.len() > 0 {
        lemma_cap_nonneg(items, c.drop_last());
        assert(c.last() * items[c.len() - 1].1 >= 0) by (nonlinear_arith);
    }
}

} // verus!
