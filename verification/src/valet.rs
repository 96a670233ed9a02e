//! Parking horses on levels of limited capacity as they arrive, keeping for
//! every reachable set of parked horses the cheapest way found to reach it,
//! where parking a horse for `dur` on level `lvl` costs `dur * lvl`.
use vstd::prelude::*;
use vstd::relations::{sorted_by, total_ordering};

verus! {

/// The order of `(time left, level)` pairs: by time left, then by level.
pub open spec fn pair_le(a: (u64, u64), b: (u64, u64)) -> bool {
    a.0 < b.0 || (a.0 == b.0 && a.1 <= b.1)
}

/// `pair_le` as a relation.
pub open spec fn pair_order() -> spec_fn((u64, u64), (u64, u64)) -> bool {
    |a: (u64, u64), b: (u64, u64)| pair_le(a, b)
}

proof fn lemma_pair_order_total()
    ensures
        total_ordering(pair_order()),
{
}

/// The parked horses, as pairs of time left and level, sorted.
pub struct State(pub Vec<(u64, u64)>);

/// The horses still parked after `t` more time: those with more than `t`
/// left, with `t` less left, in the same order.
pub open spec fn advanced(s: Seq<(u64, u64)>, t: u64) -> Seq<(u64, u64)>
    decreases s.len(),
{
    if s.len() == 0 {
        Seq::empty()
    } else {
        let p = advanced(s.drop_last(), t);
        let e = s.last();
        if e.0 > t {
            p.push(((e.0 - t) as u64, e.1))
        } else {
            p
        }
    }
}

impl State {
    /// The state after `time` more time passes.
    pub fn advance(self, time: u64) -> (r: State)
        ensures
            r.0@ == advanced(self.0@, time),
    {
        let mut out: Vec<(u64, u64)> = Vec::new();
        let mut i: usize = 0;
        while i < self.0.len()
            invariant
                i <= self.0@.len(),
                out@ == advanced(self.0@.take(i as int), time),
            decreases self.0@.len() - i,
        {
            proof {
                assert(self.0@.take(i + 1).drop_last() =~= self.0@.take(i as int));
            }
            let (dur, lvl) = self.0[i];
            if dur > time {
                out.push((dur - time, lvl));
            }
            i = i + 1;
        }
        proof {
            assert(self.0@.take(i as int) =~= self.0@);
        }
        State(out)
    }

    /// The state with one more horse, parked for `dur` on level `lvl`,
    /// sorted.
    pub fn insert(&self, dur: u64, lvl: u64) -> (r: State)
        ensures
            r.0@ == self.0@.push((dur, lvl)).sort_by(pair_order()),
    {
        let ghost all = self.0@.push((dur, lvl));
        let mut out: Vec<(u64, u64)> = Vec::new();
        let mut i: usize = 0;
        proof {
            lemma_pair_order_total();
            assert(self.0@.take(0) =~= out@);
        }
        while i < self.0.len()
            invariant
                all == self.0@.push((dur, lvl)),
                i <= self.0@.len(),
                sorted_by(out@, pair_order()),
                out@.to_multiset() == self.0@.take(i as int).to_multiset(),
            decreases self.0@.len() - i,
        {
            let x = self.0[i];
            insert_in_order(&mut out, x);
            proof {
                assert(self.0@.take(i + 1) =~= self.0@.take(i as int).push(x));
                broadcast use vstd::seq_lib::group_to_multiset_ensures;
            }
            i = i + 1;
        }
        insert_in_order(&mut out, (dur, lvl));
        proof {
            broadcast use vstd::seq_lib::group_to_multiset_ensures;
            assert(self.0@.take(i as int) =~= self.0@);
            lemma_pair_order_total();
            all.lemma_sort_by_ensures(pair_order());
            vstd::seq_lib::lemma_sorted_unique(out@, all.sort_by(pair_order()), pair_order());
        }
        State(out)
    }
}

/// Puts `x` into the sorted `out` after the pairs that come no later than
/// it.
fn insert_in_order(out: &mut Vec<(u64, u64)>, x: (u64, u64))
    requires
        sorted_by(old(out)@, pair_order()),
    ensures
        sorted_by(final(out)@, pair_order()),
        final(out)@.to_multiset() == old(out)@.to_multiset().insert(x),
{
    let mut pos: usize = 0;
    while pos < out.len() && pair_le_exec(out[pos], x)
        invariant
            pos <= out@.len(),
            out@ == old(out)@,
            forall|k: int| 0 <= k < pos ==> pair_le(#[trigger] out@[k], x),
        decreases out@.len() - pos,
    {
        pos = pos + 1;
    }
    let ghost o0 = out@;
    out.insert(pos, x);
    proof {
        broadcast use vstd::seq_lib::group_to_multiset_ensures;
        assert(sorted_by(out@, pair_order())) by {
            assert forall|a: int, b: int| 0 <= a < b < out@.len() implies #[trigger] pair_order()(out@[a], out@[b]) by {
                if pos < o0.len() {
                    assert(!pair_le(o0[pos as int], x));
                }
                if a < pos && b == pos {
                } else if a == pos && b > pos {
                    assert(pair_order()(o0[pos as int], o0[b - 1]) || pos == b - 1);
                } else if a < pos && b > pos {
                    assert(pair_order()(o0[a], o0[b - 1]));
                } else if b < pos {
                    assert(pair_order()(o0[a], o0[b]));
                } else {
                    assert(pair_order()(o0[a - 1], o0[b - 1]));
                }
            }
        }
    }
}

/// Whether `a` comes no later than `b` in the order of pairs.
fn pair_le_exec(a: (u64, u64), b: (u64, u64)) -> (r: bool)
    ensures
        r == pair_le(a, b),
{
    a.0 < b.0 || (a.0 == b.0 && a.1 <= b.1)
}

/// A copy of a list of pairs.
pub fn copy_pairs(v: &Vec<(u64, u64)>) -> (r: Vec<(u64, u64)>)
    ensures
        r@ == v@,
{
    let mut r: Vec<(u64, u64)> = Vec::new();
    let mut i: usize = 0;
    while i < v.len()
        invariant
            i <= v@.len(),
            r@ == v@.take(i as int),
        decreases v@.len() - i,
    {
        r.push(v[i]);
        proof {
            assert(v@.take(i + 1) =~= v@.take(i as int).push(v@[i as int]));
        }
        i = i + 1;
    }
    proof {
        assert(v@.take(i as int) =~= v@);
    }
    r
}

/// Whether two lists of pairs are the same.
pub fn same_pairs(a: &Vec<(u64, u64)>, b: &Vec<(u64, u64)>) -> (r: bool)
    ensures
        r == (a@ == b@),
{
    if a.len() != b.len() {
        return false;
    }
    let mut i: usize = 0;
    while i < a.len()
        invariant
            i <= a@.len() == b@.len(),
            forall|k: int| 0 <= k < i ==> a@[k] == b@[k],
        decreases a@.len() - i,
    {
        if a[i].0 != b[i].0 || a[i].1 != b[i].1 {
            return false;
        }
        i = i + 1;
    }
    proof {
        assert(a@ =~= b@);
    }
    true
}

/// A reachable state with the cheapest cost found for it and the choices
/// (horse, level) that reach it at that cost.
pub type Entry = (Seq<(u64, u64)>, u64, Seq<(u64, u64)>);

/// Some entry is for state `k`.
pub open spec fn has_key(es: Seq<Entry>, k: Seq<(u64, u64)>) -> bool {
    exists|i: int| 0 <= i < es.len() && (#[trigger] es[i]).0 == k
}

/// The entry for state `k`.
pub open spec fn key_index(es: Seq<Entry>, k: Seq<(u64, u64)>) -> int {
    choose|i: int| 0 <= i < es.len() && (#[trigger] es[i]).0 == k
}

/// No two entries are for the same state.
pub open spec fn distinct_keys(es: Seq<Entry>) -> bool {
    forall|i: int, j: int| 0 <= i < j < es.len() ==> (#[trigger] es[i]).0 != (#[trigger] es[j]).0
}

/// The entries after offering state `k` at cost `score` reached by `sol`:
/// a new state is added at the end; a known one takes the offer only if it
/// is strictly cheaper.
pub open spec fn offer(es: Seq<Entry>, k: Seq<(u64, u64)>, score: u64, sol: Seq<(u64, u64)>) -> Seq<Entry> {
    if has_key(es, k) {
        let i = key_index(es, k);
        if es[i].1 > score {
            es.update(i, (k, score, sol))
        } else {
            es
        }
    } else {
        es.push((k, score, sol))
    }
}

/// The cheapest known cost of each reachable state.
pub struct StateBests {
    d: Vec<(State, (u64, Vec<(u64, u64)>))>,
}

/// An entry as plain sequences.
pub open spec fn entry_view(e: (State, (u64, Vec<(u64, u64)>))) -> Entry {
    (e.0.0@, e.1.0, e.1.1@)
}

impl View for StateBests {
    type V = Seq<Entry>;

    closed spec fn view(&self) -> Seq<Entry> {
        self.d@.map_values(|e: (State, (u64, Vec<(u64, u64)>))| entry_view(e))
    }
}

impl StateBests {
    pub closed spec fn wf(&self) -> bool {
        distinct_keys(self@)
    }

    /// No states.
    pub fn new() -> (r: Self)
        ensures
            r.wf(),
            r@ == Seq::<Entry>::empty(),
    {
        let r = StateBests { d: Vec::new() };
        proof {
            assert(r@ =~= Seq::<Entry>::empty());
        }
        r
    }

    /// How many states are known.
    pub fn len(&self) -> (r: usize)
        ensures
            r == self@.len(),
    {
        self.d.len()
    }

    /// Offers state `key` at cost `val.0` reached by the choices `val.1`
    /// (see `offer`).
    pub fn update_best(&mut self, key: State, val: (u64, Vec<(u64, u64)>))
        requires
            old(self).wf(),
        ensures
            final(self).wf(),
            final(self)@ == offer(old(self)@, key.0@, val.0, val.1@),
    {
        let ghost es = self@;
        let mut i: usize = 0;
        while i < self.d.len()
            invariant
                self@ == es,
                es == old(self)@,
                distinct_keys(es),
                i <= es.len(),
                forall|q: int| 0 <= q < i ==> (#[trigger] es[q]).0 != key.0@,
            decreases es.len() - i,
        {
            if same_pairs(&self.d[i].0.0, &key.0) {
                proof {
                    assert(es[i as int].0 == key.0@);
                    assert(has_key(es, key.0@));
                    let j = key_index(es, key.0@);
                    assert(j == i);
                }
                if self.d[i].1.0 > val.0 {
                    self.d.set(i, (key, val));
                    proof {
                        assert(self@ =~= es.update(i as int, (key.0@, val.0, val.1@)));
                        assert(distinct_keys(self@)) by {
                            assert forall|a: int, b: int| 0 <= a < b < self@.len() implies (#[trigger] self@[a]).0 != (#[trigger] self@[b]).0 by {
                                if a != i && b != i {
                                    assert(self@[a] == es[a] && self@[b] == es[b]);
                                } else if a == i {
                                    assert(self@[b] == es[b]);
                                } else {
                                    assert(self@[a] == es[a]);
                                }
                            }
                        }
                    }
                }
                return;
            }
            i = i + 1;
        }
        proof {
            assert(!has_key(es, key.0@));
        }
        self.d.push((key, val));
        proof {
            assert(self@ =~= es.push((key.0@, val.0, val.1@)));
        }
    }
}

/// The entries after `t` more time: each state advanced and offered in
/// turn to an empty list.
pub open spec fn advance_entries(es: Seq<Entry>, t: u64) -> Seq<Entry>
    decreases es.len(),
{
    if es.len() == 0 {
        Seq::empty()
    } else {
        let e = es.last();
        offer(advance_entries(es.drop_last(), t), advanced(e.0, t), e.1, e.2)
    }
}

impl StateBests {
    /// The cheapest costs after `time` more time passes: states that become
    /// the same keep the cheapest of their costs (the earliest on ties).
    pub fn advance_all(self, time: u64) -> (r: StateBests)
        ensures
            r.wf(),
            r@ == advance_entries(self@, time),
    {
        let mut new = StateBests::new();
        let mut i: usize = 0;
        while i < self.d.len()
            invariant
                i <= self@.len(),
                self@.len() == self.d@.len(),
                new.wf(),
                new@ == advance_entries(self@.take(i as int), time),
            decreases self@.len() - i,
        {
            let st = State(copy_pairs(&self.d[i].0.0)).advance(time);
            let val = (self.d[i].1.0, copy_pairs(&self.d[i].1.1));
            proof {
                assert(self@.take(i + 1).drop_last() =~= self@.take(i as int));
                assert(self@[i as int] == entry_view(self.d@[i as int]));
            }
            new.update_best(st, val);
            i = i + 1;
        }
        proof {
            assert(self@.take(i as int) =~= self@);
        }
        new
    }
}

/// The room left on each level with the horses of state `s` parked;
/// `None` where a horse is on a level that does not exist or that is
/// already full.
pub open spec fn room(caps: Seq<u64>, s: Seq<(u64, u64)>) -> Option<Seq<u64>>
    decreases s.len(),
{
    if s.len() == 0 {
        Some(caps)
    } else {
        match room(caps, s.drop_last()) {
            Some(c) => {
                let l = s.last().1;
                if l < c.len() && c[l as int] > 0 {
                    Some(c.update(l as int, (c[l as int] - 1) as u64))
                } else {
                    None
                }
            },
            None => None,
        }
    }
}

/// The entries after offering, for each of the first `l` levels with room,
/// the state `s` with horse `h` (staying `dur`) parked on that level;
/// `None` where a cost does not fit in 64 bits.
pub open spec fn place_levels(
    acc: Seq<Entry>,
    s: Seq<(u64, u64)>,
    score: u64,
    sol: Seq<(u64, u64)>,
    left: Seq<u64>,
    dur: u64,
    h: u64,
    l: nat,
) -> Option<Seq<Entry>>
    decreases l,
{
    if l == 0 {
        Some(acc)
    } else {
        match place_levels(acc, s, score, sol, left, dur, h, (l - 1) as nat) {
            Some(a) => {
                let lvl = (l - 1) as u64;
                if left[lvl as int] == 0 {
                    Some(a)
                } else if score + dur * lvl > u64::MAX {
                    None
                } else {
                    Some(offer(a, s.push((dur, lvl)).sort_by(pair_order()), (score + dur * lvl) as u64, sol.push((h, lvl))))
                }
            },
            None => None,
        }
    }
}

/// The entries after horse `h`, staying `dur`, is parked in each possible
/// way from each of the first `n` entries of `es`.
pub open spec fn place_all(es: Seq<Entry>, caps: Seq<u64>, dur: u64, h: u64, n: nat) -> Option<Seq<Entry>>
    decreases n,
{
    if n == 0 {
        Some(Seq::empty())
    } else {
        match place_all(es, caps, dur, h, (n - 1) as nat) {
            Some(acc) => {
                let e = es[n - 1];
                match room(caps, e.0) {
                    Some(left) => place_levels(acc, e.0, e.1, e.2, left, dur, h, left.len()),
                    None => None,
                }
            },
            None => None,
        }
    }
}

/// The room left on each level with the horses of `s` parked.
fn room_left(caps: &Vec<u64>, s: &State) -> (r: Option<Vec<u64>>)
    ensures
        match room(caps@, s.0@) {
            Some(c) => r matches Some(v) && v@ == c,
            None => r is None,
        },
{
    let mut c: Vec<u64> = Vec::new();
    let mut k: usize = 0;
    while k < caps.len()
        invariant
            k <= caps@.len(),
            c@ == caps@.take(k as int),
        decreases caps@.len() - k,
    {
        c.push(caps[k]);
        proof {
            assert(caps@.take(k + 1) =~= caps@.take(k as int).push(caps@[k as int]));
        }
        k = k + 1;
    }
    proof {
        assert(caps@.take(k as int) =~= caps@);
    }
    let mut i: usize = 0;
    while i < s.0.len()
        invariant
            i <= s.0@.len(),
            room(caps@, s.0@.take(i as int)) == Some(c@),
        decreases s.0@.len() - i,
    {
        proof {
            assert(s.0@.take(i + 1).drop_last() =~= s.0@.take(i as int));
        }
        let lvl = s.0[i].1;
        if lvl >= c.len() as u64 {
            proof {
                lemma_room_none(caps@, s.0@, (i + 1) as nat);
            }
            return None;
        }
        let l = lvl as usize;
        if c[l] == 0 {
            proof {
                lemma_room_none(caps@, s.0@, (i + 1) as nat);
            }
            return None;
        }
        let v = c[l] - 1;
        c.set(l, v);
        i = i + 1;
    }
    proof {
        assert(s.0@.take(i as int) =~= s.0@);
    }
    Some(c)
}

/// Once a prefix of the horses does not fit, the whole state does not.
proof fn lemma_room_none(caps: Seq<u64>, s: Seq<(u64, u64)>, n: nat)
    requires
        n <= s.len(),
        room(caps, s.take(n as int)) is None,
    ensures
        room(caps, s) is None,
    decreases s.len() - n,
{
    if n < s.len() {
        assert(s.take((n + 1) as int).drop_last() =~= s.take(n as int));
        lemma_room_none(caps, s, n + 1);
    } else {
        assert(s.take(n as int) =~= s);
    }
}

/// Parks horse `h`, staying `dur`, in every possible way from every known
/// state (see `place_all`). `None` where a known state does not fit the
/// levels or a cost does not fit in 64 bits.
pub fn place_horse(bests: &StateBests, caps: &Vec<u64>, h: u64, dur: u64) -> (r: Option<StateBests>)
    ensures
        match place_all(bests@, caps@, dur, h, bests@.len()) {
            Some(es) => r matches Some(b) && b.wf() && b@ == es,
            None => r is None,
        },
{
    let mut acc = StateBests::new();
    let mut i: usize = 0;
    while i < bests.d.len()
        invariant
            i <= bests@.len(),
            bests@.len() == bests.d@.len(),
            acc.wf(),
            place_all(bests@, caps@, dur, h, i as nat) == Some(acc@),
        decreases bests@.len() - i,
    {
        let entry = &bests.d[i];
        proof {
            assert(bests@[i as int] == entry_view(bests.d@[i as int]));
        }
        let left = match room_left(caps, &entry.0) {
            Some(v) => v,
            None => {
                proof {
                    lemma_place_all_none(bests@, caps@, dur, h, (i + 1) as nat, bests@.len());
                }
                return None;
            },
        };
        let ghost acc0 = acc@;
        let mut lvl: usize = 0;
        while lvl < left.len()
            invariant
                i < bests@.len(),
                bests@.len() == bests.d@.len(),
                *entry == bests.d@[i as int],
                bests@[i as int] == entry_view(*entry),
                place_all(bests@, caps@, dur, h, i as nat) == Some(acc0),
                room(caps@, entry.0.0@) == Some(left@),
                acc.wf(),
                lvl <= left@.len(),
                place_levels(acc0, entry.0.0@, entry.1.0, entry.1.1@, left@, dur, h, lvl as nat) == Some(acc@),
            decreases left@.len() - lvl,
        {
            if left[lvl] != 0 {
                let l = lvl as u64;
                let cost = match dur.checked_mul(l) {
                    Some(c) => c,
                    None => {
                        proof {
                            lemma_place_levels_none(acc0, entry.0.0@, entry.1.0, entry.1.1@, left@, dur, h, (lvl + 1) as nat, left@.len());
                            lemma_place_all_none(bests@, caps@, dur, h, (i + 1) as nat, bests@.len());
                        }
                        return None;
                    },
                };
                let score = match entry.1.0.checked_add(cost) {
                    Some(c) => c,
                    None => {
                        proof {
                            lemma_place_levels_none(acc0, entry.0.0@, entry.1.0, entry.1.1@, left@, dur, h, (lvl + 1) as nat, left@.len());
                            lemma_place_all_none(bests@, caps@, dur, h, (i + 1) as nat, bests@.len());
                        }
                        return None;
                    },
                };
                let st = entry.0.insert(dur, l);
                let mut sol = copy_pairs(&entry.1.1);
                sol.push((h, l));
                acc.update_best(st, (score, sol));
            }
            lvl = lvl + 1;
        }
        i = i + 1;
    }
    Some(acc)
}

/// Once parking fails for some levels, it fails for all.
proof fn lemma_place_levels_none(
    acc: Seq<Entry>,
    s: Seq<(u64, u64)>,
    score: u64,
    sol: Seq<(u64, u64)>,
    left: Seq<u64>,
    dur: u64,
    h: u64,
    l: nat,
    m: nat,
)
    requires
        l <= m,
        place_levels(acc, s, score, sol, left, dur, h, l) is None,
    ensures
        place_levels(acc, s, score, sol, left, dur, h, m) is None,
    decreases m - l,
{
    if l < m {
        lemma_place_levels_none(acc, s, score, sol, left, dur, h, l + 1, m);
    }
}

/// Once parking fails for some states, it fails for all.
proof fn lemma_place_all_none(es: Seq<Entry>, caps: Seq<u64>, dur: u64, h: u64, n: nat, m: nat)
    requires
        n <= m,
        place_all(es, caps, dur, h, n) is None,
    ensures
        place_all(es, caps, dur, h, m) is None,
    decreases m - n,
{
    if n < m {
        lemma_place_all_none(es, caps, dur, h, n + 1, m);
    }
}

/// Sorts pairs by `pair_le`.
pub fn sort_pairs(v: &Vec<(u64, u64)>) -> (r: Vec<(u64, u64)>)
    ensures
        r@ == v@.sort_by(pair_order()),
{
    let mut out: Vec<(u64, u64)> = Vec::new();
    let mut i: usize = 0;
    proof {
        lemma_pair_order_total();
        assert(v@.take(0) =~= out@);
    }
    while i < v.len()
        invariant
            i <= v@.len(),
            sorted_by(out@, pair_order()),
            out@.to_multiset() == v@.take(i as int).to_multiset(),
        decreases v@.len() - i,
    {
        insert_in_order(&mut out, v[i]);
        proof {
            assert(v@.take(i + 1) =~= v@.take(i as int).push(v@[i as int]));
            broadcast use vstd::seq_lib::group_to_multiset_ensures;
        }
        i = i + 1;
    }
    proof {
        assert(v@.take(i as int) =~= v@);
        lemma_pair_order_total();
        v@.lemma_sort_by_ensures(pair_order());
        vstd::seq_lib::lemma_sorted_unique(out@, v@.sort_by(pair_order()), pair_order());
    }
    out
}

/// The order of horses `(arrival, stay, index)`: by arrival, then stay,
/// then index.
pub open spec fn triple_le(a: (u64, u64, u64), b: (u64, u64, u64)) -> bool {
    a.0 < b.0 || (a.0 == b.0 && (a.1 < b.1 || (a.1 == b.1 && a.2 <= b.2)))
}

/// `triple_le` as a relation.
pub open spec fn triple_order() -> spec_fn((u64, u64, u64), (u64, u64, u64)) -> bool {
    |a: (u64, u64, u64), b: (u64, u64, u64)| triple_le(a, b)
}

proof fn lemma_triple_order_total()
    ensures
        total_ordering(triple_order()),
{
}

/// Each horse `(arrival, stay)` with its index.
pub open spec fn enumerated(hs: Seq<(u64, u64)>) -> Seq<(u64, u64, u64)> {
    Seq::new(hs.len(), |i: int| (hs[i].0, hs[i].1, i as u64))
}

/// Puts `x` into the sorted `out` after the triples that come no later.
fn insert_triple(out: &mut Vec<(u64, u64, u64)>, x: (u64, u64, u64))
    requires
        sorted_by(old(out)@, triple_order()),
    ensures
        sorted_by(final(out)@, triple_order()),
        final(out)@.to_multiset() == old(out)@.to_multiset().insert(x),
{
    let mut pos: usize = 0;
    while pos < out.len() && (out[pos].0 < x.0 || (out[pos].0 == x.0 && (out[pos].1 < x.1 || (out[pos].1 == x.1 && out[pos].2 <= x.2))))
        invariant
            pos <= out@.len(),
            out@ == old(out)@,
            forall|k: int| 0 <= k < pos ==> triple_le(#[trigger] out@[k], x),
        decreases out@.len() - pos,
    {
        pos = pos + 1;
    }
    let ghost o0 = out@;
    out.insert(pos, x);
    proof {
        broadcast use vstd::seq_lib::group_to_multiset_ensures;
        assert(sorted_by(out@, triple_order())) by {
            assert forall|a: int, b: int| 0 <= a < b < out@.len() implies #[trigger] triple_order()(out@[a], out@[b]) by {
                if pos < o0.len() {
                    assert(!triple_le(o0[pos as int], x));
                }
                if a < pos && b == pos {
                } else if a == pos && b > pos {
                    assert(triple_order()(o0[pos as int], o0[b - 1]) || pos == b - 1);
                } else if a < pos && b > pos {
                    assert(triple_order()(o0[a], o0[b - 1]));
                } else if b < pos {
                    assert(triple_order()(o0[a], o0[b]));
                } else {
                    assert(triple_order()(o0[a - 1], o0[b - 1]));
                }
            }
        }
    }
}

/// The horses in the order they are handled: by arrival, then stay, then
/// index.
pub fn arrival_order(horses: &Vec<(u64, u64)>) -> (r: Vec<(u64, u64, u64)>)
    ensures
        r@ == enumerated(horses@).sort_by(triple_order()),
{
    let ghost all = enumerated(horses@);
    let mut out: Vec<(u64, u64, u64)> = Vec::new();
    let mut i: usize = 0;
    proof {
        lemma_triple_order_total();
        assert(all.take(0) =~= out@);
    }
    while i < horses.len()
        invariant
            i <= horses@.len(),
            all == enumerated(horses@),
            sorted_by(out@, triple_order()),
            out@.to_multiset() == all.take(i as int).to_multiset(),
        decreases horses@.len() - i,
    {
        let x = (horses[i].0, horses[i].1, i as u64);
        insert_triple(&mut out, x);
        proof {
            assert(all.take(i + 1) =~= all.take(i as int).push(x));
            broadcast use vstd::seq_lib::group_to_multiset_ensures;
        }
        i = i + 1;
    }
    proof {
        assert(all.take(i as int) =~= all);
        lemma_triple_order_total();
        all.lemma_sort_by_ensures(triple_order());
        vstd::seq_lib::lemma_sorted_unique(out@, all.sort_by(triple_order()), triple_order());
    }
    out
}

/// The time and the entries after the first `k` horses of `order` have
/// been parked: before each horse the states advance to its arrival.
pub open spec fn run(order: Seq<(u64, u64, u64)>, caps: Seq<u64>, k: nat) -> Option<(u64, Seq<Entry>)>
    decreases k,
{
    if k == 0 {
        Some((0u64, seq![(Seq::<(u64, u64)>::empty(), 0u64, Seq::<(u64, u64)>::empty())]))
    } else {
        match run(order, caps, (k - 1) as nat) {
            Some(st) => {
                let hrs = order[k - 1];
                let t = if hrs.0 > st.0 { hrs.0 } else { st.0 };
                let es = if hrs.0 > st.0 { advance_entries(st.1, (hrs.0 - st.0) as u64) } else { st.1 };
                match place_all(es, caps, hrs.1, hrs.2, es.len()) {
                    Some(es2) => Some((t, es2)),
                    None => None,
                }
            },
            None => None,
        }
    }
}

/// The choices `(horse, level)` counted from 1.
pub open spec fn from_one(sol: Seq<(u64, u64)>) -> Option<Seq<(u64, u64)>> {
    if forall|i: int| 0 <= i < sol.len() ==> (#[trigger] sol[i]).0 < u64::MAX && sol[i].1 < u64::MAX {
        Some(sol.map_values(|p: (u64, u64)| ((p.0 + 1) as u64, (p.1 + 1) as u64)))
    } else {
        None
    }
}

/// The horses `(arrival, stay)` with their indices, in the order they are
/// handled.
pub open spec fn arrival(horses: Seq<(u64, u64)>) -> Seq<(u64, u64, u64)> {
    enumerated(horses).sort_by(triple_order())
}

/// The time and the entries once every horse has been handled.
pub open spec fn handled(horses: Seq<(u64, u64)>, caps: Seq<u64>) -> Option<(u64, Seq<Entry>)> {
    run(arrival(horses), caps, arrival(horses).len())
}

/// Once every horse has left, the single state left with the cheapest cost
/// found and the choices that reach it.
pub open spec fn best_entry(horses: Seq<(u64, u64)>, caps: Seq<u64>) -> Option<Entry> {
    match handled(horses, caps) {
        Some(st) => {
            let fin = advance_entries(st.1, u64::MAX);
            if fin.len() == 1 {
                Some(fin[0])
            } else {
                None
            }
        },
        None => None,
    }
}

/// Where each horse parks: the choices of `best_entry`, as `(horse, level)`
/// pairs counted from 1, sorted.
pub open spec fn parking(horses: Seq<(u64, u64)>, caps: Seq<u64>) -> Option<Seq<(u64, u64)>> {
    match best_entry(horses, caps) {
        Some(e) => match from_one(e.2) {
            Some(pairs) => Some(pairs.sort_by(pair_order())),
            None => None,
        },
        None => None,
    }
}

/// Parks the horses `(arrival, stay)` on levels with the given capacities
/// (see `parking`). `None` where no way of parking them all exists, or a
/// cost does not fit in 64 bits.
pub fn park_horses(caps: &Vec<u64>, horses: &Vec<(u64, u64)>) -> (r: Option<Vec<(u64, u64)>>)
    ensures
        match parking(horses@, caps@) {
            Some(p) => r matches Some(v) && v@ == p,
            None => r is None,
        },
{
    let order = arrival_order(horses);
    let ghost ord = order@;
    let mut bests = StateBests::new();
    bests.update_best(State(Vec::new()), (0, Vec::new()));
    proof {
        assert(bests@ =~= seq![(Seq::<(u64, u64)>::empty(), 0u64, Seq::<(u64, u64)>::empty())]);
    }
    let mut time: u64 = 0;
    let mut k: usize = 0;
    while k < order.len()
        invariant
            ord == order@,
            ord == enumerated(horses@).sort_by(triple_order()),
            k <= ord.len(),
            bests.wf(),
            run(ord, caps@, k as nat) == Some((time, bests@)),
        decreases ord.len() - k,
    {
        let (arr, dur, h) = order[k];
        if arr > time {
            bests = bests.advance_all(arr - time);
            time = arr;
        }
        match place_horse(&bests, caps, h, dur) {
            Some(b) => {
                bests = b;
            },
            None => {
                proof {
                    lemma_run_none(ord, caps@, (k + 1) as nat, ord.len());
                }
                return None;
            },
        }
        k = k + 1;
    }
    let fin = bests.advance_all(u64::MAX);
    if fin.len() != 1 {
        return None;
    }
    let sol = &fin.d[0].1.1;
    proof {
        assert(fin@[0] == entry_view(fin.d@[0]));
    }
    let mut pairs: Vec<(u64, u64)> = Vec::new();
    let mut i: usize = 0;
    while i < sol.len()
        invariant
            ord == enumerated(horses@).sort_by(triple_order()),
            run(ord, caps@, ord.len()) == Some((time, bests@)),
            fin@ == advance_entries(bests@, u64::MAX),
            fin@.len() == 1,
            fin@[0].2 == sol@,
            i <= sol@.len(),
            pairs@.len() == i,
            forall|q: int| 0 <= q < i ==> (#[trigger] sol@[q]).0 < u64::MAX && sol@[q].1 < u64::MAX,
            forall|q: int| 0 <= q < i ==> #[trigger] pairs@[q] == ((sol@[q].0 + 1) as u64, (sol@[q].1 + 1) as u64),
        decreases sol@.len() - i,
    {
        let (a, b) = sol[i];
        if a == u64::MAX || b == u64::MAX {
            proof {
                assert(from_one(sol@) is None);
            }
            return None;
        }
        pairs.push((a + 1, b + 1));
        i = i + 1;
    }
    proof {
        assert(from_one(sol@) == Some(pairs@)) by {
            assert(pairs@ =~= sol@.map_values(|p: (u64, u64)| ((p.0 + 1) as u64, (p.1 + 1) as u64)));
        }
    }
    Some(sort_pairs(&pairs))
}

/// Once parking fails for some horse, it fails for all later counts.
proof fn lemma_run_none(order: Seq<(u64, u64, u64)>, caps: Seq<u64>, n: nat, m: nat)
    requires
        n <= m,
        run(order, caps, n) is None,
    ensures
        run(order, caps, m) is None,
    decreases m - n,
{
    if n < m {
        lemma_run_none(order, caps, n + 1, m);
    }
}

/// Some entry is for state `k` at cost at most `c`.
pub open spec fn has_entry_le(es: Seq<Entry>, k: Seq<(u64, u64)>, c: int) -> bool {
    exists|i: int| 0 <= i < es.len() && (#[trigger] es[i]).0 == k && es[i].1 <= c
}

/// An offer keeps every state with a cost no higher, adds the offered
/// state at no more than the offered cost, and brings in nothing else.
proof fn lemma_offer(es: Seq<Entry>, k: Seq<(u64, u64)>, score: u64, sol: Seq<(u64, u64)>)
    requires
        distinct_keys(es),
    ensures
        distinct_keys(offer(es, k, score, sol)),
        has_entry_le(offer(es, k, score, sol), k, score as int),
        forall|i: int| 0 <= i < es.len() ==> has_entry_le(offer(es, k, score, sol), (#[trigger] es[i]).0, es[i].1 as int),
        forall|j: int| 0 <= j < offer(es, k, score, sol).len() ==> (#[trigger] offer(es, k, score, sol)[j] == (k, score, sol)
            || es.contains(offer(es, k, score, sol)[j])),
{
    let r = offer(es, k, score, sol);
    if has_key(es, k) {
        let i = key_index(es, k);
        if es[i].1 > score {
            assert(r == es.update(i, (k, score, sol)));
            assert(r[i] == (k, score, sol));
            assert forall|q: int| 0 <= q < es.len() implies has_entry_le(r, (#[trigger] es[q]).0, es[q].1 as int) by {
                if q == i {
                    assert(r[i].0 == es[q].0);
                } else {
                    assert(r[q] == es[q]);
                }
            }
            assert forall|j: int| 0 <= j < r.len() implies (#[trigger] r[j] == (k, score, sol) || es.contains(r[j])) by {
                if j != i {
                    assert(r[j] == es[j]);
                }
            }
            assert(distinct_keys(r)) by {
                assert forall|a: int, b: int| 0 <= a < b < r.len() implies (#[trigger] r[a]).0 != (#[trigger] r[b]).0 by {
                    if a != i && b != i {
                        assert(r[a] == es[a] && r[b] == es[b]);
                    } else if a == i {
                        assert(r[b] == es[b]);
                    } else {
                        assert(r[a] == es[a]);
                    }
                }
            }
        } else {
            assert(r == es);
            assert(r[i].0 == k);
            assert forall|q: int| 0 <= q < es.len() implies has_entry_le(r, (#[trigger] es[q]).0, es[q].1 as int) by {
                assert(r[q] == es[q]);
            }
            assert forall|j: int| 0 <= j < r.len() implies (#[trigger] r[j] == (k, score, sol) || es.contains(r[j])) by {
                assert(r[j] == es[j]);
            }
        }
    } else {
        assert(r == es.push((k, score, sol)));
        assert(r[es.len() as int] == (k, score, sol));
        assert forall|q: int| 0 <= q < es.len() implies has_entry_le(r, (#[trigger] es[q]).0, es[q].1 as int) by {
            assert(r[q] == es[q]);
        }
        assert forall|j: int| 0 <= j < r.len() implies (#[trigger] r[j] == (k, score, sol) || es.contains(r[j])) by {
            if j < es.len() {
                assert(r[j] == es[j]);
            }
        }
        assert(distinct_keys(r)) by {
            assert forall|a: int, b: int| 0 <= a < b < r.len() implies (#[trigger] r[a]).0 != (#[trigger] r[b]).0 by {
                if b < es.len() {
                    assert(r[a] == es[a] && r[b] == es[b]);
                } else {
                    assert(r[a] == es[a]);
                    assert(has_key(es, r[a].0));
                }
            }
        }
    }
}

/// Once an entry for `k` at cost at most `c` is there, offers keep one.
proof fn lemma_offer_keeps_le(es: Seq<Entry>, k2: Seq<(u64, u64)>, c: int, k: Seq<(u64, u64)>, score: u64, sol: Seq<(u64, u64)>)
    requires
        distinct_keys(es),
        has_entry_le(es, k2, c),
    ensures
        has_entry_le(offer(es, k, score, sol), k2, c),
{
    lemma_offer(es, k, score, sol);
    let i = choose|i: int| 0 <= i < es.len() && (#[trigger] es[i]).0 == k2 && es[i].1 <= c;
    assert(has_entry_le(offer(es, k, score, sol), es[i].0, es[i].1 as int));
}

/// An entry with its state advanced by `t`.
pub open spec fn advanced_entry(e: Entry, t: u64) -> Entry {
    (advanced(e.0, t), e.1, e.2)
}

/// Advancing gives states that are distinct.
proof fn lemma_advance_distinct(es: Seq<Entry>, t: u64)
    ensures
        distinct_keys(advance_entries(es, t)),
    decreases es.len(),
{
    if es.len() > 0 {
        lemma_advance_distinct(es.drop_last(), t);
        let e = es.last();
        lemma_offer(advance_entries(es.drop_last(), t), advanced(e.0, t), e.1, e.2);
    }
}

/// Advancing keeps, for every entry, its advanced state at no higher cost.
proof fn lemma_advance_le(es: Seq<Entry>, t: u64)
    ensures
        forall|i: int| 0 <= i < es.len() ==> has_entry_le(advance_entries(es, t), advanced((#[trigger] es[i]).0, t), es[i].1 as int),
    decreases es.len(),
{
    if es.len() > 0 {
        let prev = es.drop_last();
        lemma_advance_le(prev, t);
        lemma_advance_distinct(prev, t);
        let acc = advance_entries(prev, t);
        let e = es.last();
        lemma_offer(acc, advanced(e.0, t), e.1, e.2);
        assert forall|i: int| 0 <= i < es.len() implies has_entry_le(advance_entries(es, t), advanced((#[trigger] es[i]).0, t), es[i].1 as int) by {
            if i < es.len() - 1 {
                assert(prev[i] == es[i]);
                assert(has_entry_le(acc, advanced(prev[i].0, t), prev[i].1 as int));
                lemma_offer_keeps_le(acc, advanced(prev[i].0, t), prev[i].1 as int, advanced(e.0, t), e.1, e.2);
            }
        }
    }
}

/// Every entry that advancing gives is an advanced entry.
proof fn lemma_advance_from(es: Seq<Entry>, t: u64)
    ensures
        forall|j: int| 0 <= j < advance_entries(es, t).len() ==> exists|i: int| 0 <= i < es.len() && #[trigger] advance_entries(es, t)[j]
            == advanced_entry(es[i], t),
    decreases es.len(),
{
    if es.len() > 0 {
        let prev = es.drop_last();
        lemma_advance_from(prev, t);
        lemma_advance_distinct(prev, t);
        let acc = advance_entries(prev, t);
        let e = es.last();
        let r = advance_entries(es, t);
        lemma_offer(acc, advanced(e.0, t), e.1, e.2);
        assert forall|j: int| 0 <= j < r.len() implies exists|i: int| 0 <= i < es.len() && #[trigger] r[j] == advanced_entry(es[i], t) by {
            if r[j] == (advanced(e.0, t), e.1, e.2) {
                assert(r[j] == advanced_entry(es[es.len() - 1], t));
            } else {
                assert(acc.contains(r[j]));
                let q = choose|q: int| 0 <= q < acc.len() && acc[q] == r[j];
                let i = choose|i: int| 0 <= i < prev.len() && #[trigger] acc[q] == advanced_entry(prev[i], t);
                assert(prev[i] == es[i]);
            }
        }
    }
}

/// The entry for state `s` (cost `score`, choices `sol`) after horse `h`,
/// staying `dur`, parks on level `lvl`.
pub open spec fn placed_entry(s: Seq<(u64, u64)>, score: u64, sol: Seq<(u64, u64)>, dur: u64, h: u64, lvl: u64) -> Entry {
    (s.push((dur, lvl)).sort_by(pair_order()), (score + dur * lvl) as u64, sol.push((h, lvl)))
}

/// Horse `h` parked on level `lvl` from state `s` (where that level has
/// room) gives an entry whose cost fits in 64 bits and is found in `res` at
/// no higher cost.
pub open spec fn level_placed(
    res: Seq<Entry>,
    s: Seq<(u64, u64)>,
    score: u64,
    sol: Seq<(u64, u64)>,
    left: Seq<u64>,
    dur: u64,
    h: u64,
    lvl: u64,
) -> bool {
    left[lvl as int] != 0 ==> score + dur * lvl <= u64::MAX && has_entry_le(
        res,
        placed_entry(s, score, sol, dur, h, lvl).0,
        score + dur * lvl,
    )
}

/// Entry `e` is horse `h` parked from state `s` on one of the first `l`
/// levels, one with room, at a cost that fits in 64 bits.
pub open spec fn from_levels(
    e: Entry,
    s: Seq<(u64, u64)>,
    score: u64,
    sol: Seq<(u64, u64)>,
    left: Seq<u64>,
    dur: u64,
    h: u64,
    l: nat,
) -> bool {
    exists|lvl: u64|
        lvl < l && left[lvl as int] != 0 && score + dur * lvl <= u64::MAX && e == #[trigger] placed_entry(
            s,
            score,
            sol,
            dur,
            h,
            lvl,
        )
}

/// Parking from one state over the first `l` levels keeps the states
/// distinct and every earlier entry at no higher cost, finds each way of
/// parking at no higher cost, and brings in nothing else.
proof fn lemma_place_levels(
    acc: Seq<Entry>,
    s: Seq<(u64, u64)>,
    score: u64,
    sol: Seq<(u64, u64)>,
    left: Seq<u64>,
    dur: u64,
    h: u64,
    l: nat,
)
    requires
        distinct_keys(acc),
        l <= u64::MAX,
        place_levels(acc, s, score, sol, left, dur, h, l) is Some,
    ensures
        distinct_keys(place_levels(acc, s, score, sol, left, dur, h, l).unwrap()),
        forall|i: int|
            0 <= i < acc.len() ==> has_entry_le(
                place_levels(acc, s, score, sol, left, dur, h, l).unwrap(),
                (#[trigger] acc[i]).0,
                acc[i].1 as int,
            ),
        forall|lvl: u64|
            lvl < l ==> #[trigger] level_placed(
                place_levels(acc, s, score, sol, left, dur, h, l).unwrap(),
                s,
                score,
                sol,
                left,
                dur,
                h,
                lvl,
            ),
        forall|j: int|
            0 <= j < place_levels(acc, s, score, sol, left, dur, h, l).unwrap().len() ==> acc.contains(
                #[trigger] place_levels(acc, s, score, sol, left, dur, h, l).unwrap()[j],
            ) || from_levels(place_levels(acc, s, score, sol, left, dur, h, l).unwrap()[j], s, score, sol, left, dur, h, l),
    decreases l,
{
    if l > 0 {
        let l1 = (l - 1) as nat;
        lemma_place_levels(acc, s, score, sol, left, dur, h, l1);
        let a = place_levels(acc, s, score, sol, left, dur, h, l1).unwrap();
        let lv = l1 as u64;
        let res = place_levels(acc, s, score, sol, left, dur, h, l).unwrap();
        if left[lv as int] == 0 {
            assert(res == a);
            assert forall|lvl: u64| lvl < l implies #[trigger] level_placed(res, s, score, sol, left, dur, h, lvl) by {
                if lvl < l1 {
                    assert(level_placed(a, s, score, sol, left, dur, h, lvl));
                }
            }
            assert forall|j: int| 0 <= j < res.len() implies acc.contains(#[trigger] res[j]) || from_levels(
                res[j],
                s,
                score,
                sol,
                left,
                dur,
                h,
                l,
            ) by {
                if !acc.contains(res[j]) {
                    assert(from_levels(a[j], s, score, sol, left, dur, h, l1));
                    let lvl = choose|lvl: u64|
                        lvl < l1 && left[lvl as int] != 0 && score + dur * lvl <= u64::MAX && a[j] == #[trigger] placed_entry(
                            s,
                            score,
                            sol,
                            dur,
                            h,
                            lvl,
                        );
                    assert(res[j] == placed_entry(s, score, sol, dur, h, lvl));
                }
            }
        } else {
            let e = placed_entry(s, score, sol, dur, h, lv);
            assert(score + dur * lv <= u64::MAX);
            assert(res == offer(a, e.0, e.1, e.2));
            lemma_offer(a, e.0, e.1, e.2);
            assert forall|i: int| 0 <= i < acc.len() implies has_entry_le(res, (#[trigger] acc[i]).0, acc[i].1 as int) by {
                assert(has_entry_le(a, acc[i].0, acc[i].1 as int));
                lemma_offer_keeps_le(a, acc[i].0, acc[i].1 as int, e.0, e.1, e.2);
            }
            assert forall|lvl: u64| lvl < l implies #[trigger] level_placed(res, s, score, sol, left, dur, h, lvl) by {
                if lvl < l1 {
                    assert(level_placed(a, s, score, sol, left, dur, h, lvl));
                    if left[lvl as int] != 0 {
                        let e2 = placed_entry(s, score, sol, dur, h, lvl);
                        lemma_offer_keeps_le(a, e2.0, score + dur * lvl, e.0, e.1, e.2);
                    }
                } else {
                    assert(lvl == lv);
                }
            }
            assert forall|j: int| 0 <= j < res.len() implies acc.contains(#[trigger] res[j]) || from_levels(
                res[j],
                s,
                score,
                sol,
                left,
                dur,
                h,
                l,
            ) by {
                if res[j] == e {
                    assert(res[j] == placed_entry(s, score, sol, dur, h, lv));
                } else {
                    assert(a.contains(res[j]));
                    let q = choose|q: int| 0 <= q < a.len() && a[q] == res[j];
                    if !acc.contains(a[q]) {
                        assert(from_levels(a[q], s, score, sol, left, dur, h, l1));
                        let lvl = choose|lvl: u64|
                            lvl < l1 && left[lvl as int] != 0 && score + dur * lvl <= u64::MAX && a[q] == #[trigger] placed_entry(
                                s,
                                score,
                                sol,
                                dur,
                                h,
                                lvl,
                            );
                        assert(res[j] == placed_entry(s, score, sol, dur, h, lvl));
                    }
                }
            }
        }
    }
}

/// Parking keeps every entry that was there at no higher cost.
proof fn lemma_place_levels_keeps(
    acc: Seq<Entry>,
    s: Seq<(u64, u64)>,
    score: u64,
    sol: Seq<(u64, u64)>,
    left: Seq<u64>,
    dur: u64,
    h: u64,
    l: nat,
    k: Seq<(u64, u64)>,
    c: int,
)
    requires
        distinct_keys(acc),
        l <= u64::MAX,
        place_levels(acc, s, score, sol, left, dur, h, l) is Some,
        has_entry_le(acc, k, c),
    ensures
        has_entry_le(place_levels(acc, s, score, sol, left, dur, h, l).unwrap(), k, c),
{
    lemma_place_levels(acc, s, score, sol, left, dur, h, l);
    let i = choose|i: int| 0 <= i < acc.len() && (#[trigger] acc[i]).0 == k && acc[i].1 <= c;
    assert(has_entry_le(place_levels(acc, s, score, sol, left, dur, h, l).unwrap(), acc[i].0, acc[i].1 as int));
}

/// The room left has one count per level.
proof fn lemma_room_len(caps: Seq<u64>, s: Seq<(u64, u64)>)
    requires
        room(caps, s) is Some,
    ensures
        room(caps, s).unwrap().len() == caps.len(),
    decreases s.len(),
{
    if s.len() > 0 {
        lemma_room_len(caps, s.drop_last());
    }
}

/// Every way of parking horse `h` from entry `e` (each level with room) is
/// found in `res` at no higher cost.
pub open spec fn entry_placed(res: Seq<Entry>, e: Entry, caps: Seq<u64>, dur: u64, h: u64) -> bool {
    &&& room(caps, e.0) is Some
    &&& forall|lvl: u64|
        lvl < caps.len() ==> #[trigger] level_placed(res, e.0, e.1, e.2, room(caps, e.0).unwrap(), dur, h, lvl)
}

/// Entry `x` is horse `h` parked from entry `e` on a level with room.
pub open spec fn placed_from(x: Entry, e: Entry, caps: Seq<u64>, dur: u64, h: u64) -> bool {
    &&& room(caps, e.0) is Some
    &&& from_levels(x, e.0, e.1, e.2, room(caps, e.0).unwrap(), dur, h, caps.len())
}

/// Parking from the first `n` entries keeps the states distinct, finds each
/// way of parking from each of them at no higher cost, and brings in nothing
/// else.
proof fn lemma_place_all(es: Seq<Entry>, caps: Seq<u64>, dur: u64, h: u64, n: nat)
    requires
        n <= es.len(),
        caps.len() <= u64::MAX,
        place_all(es, caps, dur, h, n) is Some,
    ensures
        distinct_keys(place_all(es, caps, dur, h, n).unwrap()),
        forall|i: int| 0 <= i < n ==> entry_placed(place_all(es, caps, dur, h, n).unwrap(), #[trigger] es[i], caps, dur, h),
        forall|j: int|
            0 <= j < place_all(es, caps, dur, h, n).unwrap().len() ==> exists|i: int|
                0 <= i < n && placed_from(
                    #[trigger] place_all(es, caps, dur, h, n).unwrap()[j],
                    #[trigger] es[i],
                    caps,
                    dur,
                    h,
                ),
    decreases n,
{
    if n > 0 {
        let n1 = (n - 1) as nat;
        lemma_place_all(es, caps, dur, h, n1);
        let acc = place_all(es, caps, dur, h, n1).unwrap();
        let e = es[n1 as int];
        let left = room(caps, e.0).unwrap();
        lemma_room_len(caps, e.0);
        let res = place_all(es, caps, dur, h, n).unwrap();
        assert(res == place_levels(acc, e.0, e.1, e.2, left, dur, h, left.len()).unwrap());
        lemma_place_levels(acc, e.0, e.1, e.2, left, dur, h, left.len());
        assert forall|i: int| 0 <= i < n implies entry_placed(res, #[trigger] es[i], caps, dur, h) by {
            if i < n1 {
                assert(entry_placed(acc, es[i], caps, dur, h));
                let li = room(caps, es[i].0).unwrap();
                assert forall|lvl: u64| lvl < caps.len() implies #[trigger] level_placed(res, es[i].0, es[i].1, es[i].2, li, dur, h, lvl) by {
                    assert(level_placed(acc, es[i].0, es[i].1, es[i].2, li, dur, h, lvl));
                    if li[lvl as int] != 0 {
                        lemma_place_levels_keeps(
                            acc,
                            e.0,
                            e.1,
                            e.2,
                            left,
                            dur,
                            h,
                            left.len(),
                            placed_entry(es[i].0, es[i].1, es[i].2, dur, h, lvl).0,
                            es[i].1 + dur * lvl,
                        );
                    }
                }
            } else {
                assert forall|lvl: u64| lvl < caps.len() implies #[trigger] level_placed(res, es[i].0, es[i].1, es[i].2, left, dur, h, lvl) by {
                    assert(lvl < left.len());
                }
            }
        }
        assert forall|j: int| 0 <= j < res.len() implies exists|i: int| 0 <= i < n && placed_from(#[trigger] res[j], #[trigger] es[i], caps, dur, h) by {
            if acc.contains(res[j]) {
                let q = choose|q: int| 0 <= q < acc.len() && acc[q] == res[j];
                let i = choose|i: int| 0 <= i < n1 && placed_from(#[trigger] acc[q], #[trigger] es[i], caps, dur, h);
                assert(placed_from(res[j], es[i], caps, dur, h));
            } else {
                assert(placed_from(res[j], es[n1 as int], caps, dur, h));
            }
        }
    }
}

/// The time, the parked horses and the total cost after the first `k`
/// horses of `order` park as the choices `sol` say, each when it arrives
/// (after the horses whose time is up have left); `None` where a choice
/// names another horse, or a level that does not exist or has no room.
pub open spec fn hist(order: Seq<(u64, u64, u64)>, caps: Seq<u64>, sol: Seq<(u64, u64)>, k: nat) -> Option<
    (u64, Seq<(u64, u64)>, int),
>
    decreases k,
{
    if k == 0 {
        Some((0u64, Seq::<(u64, u64)>::empty(), 0int))
    } else {
        match hist(order, caps, sol, (k - 1) as nat) {
            Some(st) => {
                let hrs = order[k - 1];
                let t = if hrs.0 > st.0 { hrs.0 } else { st.0 };
                let s = if hrs.0 > st.0 { advanced(st.1, (hrs.0 - st.0) as u64) } else { st.1 };
                let c = sol[k - 1];
                match room(caps, s) {
                    Some(left) => if c.0 == hrs.2 && c.1 < left.len() && left[c.1 as int] != 0 {
                        Some((t, s.push((hrs.1, c.1)).sort_by(pair_order()), st.2 + hrs.1 * c.1))
                    } else {
                        None
                    },
                    None => None,
                }
            },
            None => None,
        }
    }
}

/// Only the first `k` choices matter for the first `k` horses.
proof fn lemma_hist_prefix(order: Seq<(u64, u64, u64)>, caps: Seq<u64>, a: Seq<(u64, u64)>, b: Seq<(u64, u64)>, k: nat)
    requires
        forall|i: int| 0 <= i < k ==> a[i] == b[i],
    ensures
        hist(order, caps, a, k) == hist(order, caps, b, k),
    decreases k,
{
    if k > 0 {
        lemma_hist_prefix(order, caps, a, b, (k - 1) as nat);
        assert(a[k - 1] == b[k - 1]);
    }
}

/// The time once horse `hrs` arrives, at time `t0` or later.
spec fn arrive_time(t0: u64, hrs: (u64, u64, u64)) -> u64 {
    if hrs.0 > t0 { hrs.0 } else { t0 }
}

/// The parked horses `s` at time `t0` once horse `hrs` arrives.
spec fn arrive_state(s: Seq<(u64, u64)>, t0: u64, hrs: (u64, u64, u64)) -> Seq<(u64, u64)> {
    if hrs.0 > t0 { advanced(s, (hrs.0 - t0) as u64) } else { s }
}

/// The entries at time `t0` once horse `hrs` arrives.
spec fn arrive_entries(es: Seq<Entry>, t0: u64, hrs: (u64, u64, u64)) -> Seq<Entry> {
    if hrs.0 > t0 { advance_entries(es, (hrs.0 - t0) as u64) } else { es }
}

/// Each entry's choices park the first `k` horses, reaching its state at
/// time `t` at its cost.
spec fn sound(order: Seq<(u64, u64, u64)>, caps: Seq<u64>, es: Seq<Entry>, k: nat, t: u64) -> bool {
    forall|j: int|
        0 <= j < es.len() ==> (#[trigger] es[j]).2.len() == k && hist(order, caps, es[j].2, k) == Some(
            (t, es[j].0, es[j].1 as int),
        )
}

/// Every way of parking the first `k` horses ends at time `t` and is
/// matched by an entry for its state at no higher cost.
spec fn complete(order: Seq<(u64, u64, u64)>, caps: Seq<u64>, es: Seq<Entry>, k: nat, t: u64) -> bool {
    forall|sol: Seq<(u64, u64)>|
        (#[trigger] hist(order, caps, sol, k)) is Some ==> hist(order, caps, sol, k).unwrap().0 == t && has_entry_le(
            es,
            hist(order, caps, sol, k).unwrap().1,
            hist(order, caps, sol, k).unwrap().2,
        )
}

/// `sound` for entries taken on to the arrival of horse `hrs`.
spec fn sound_arrived(
    order: Seq<(u64, u64, u64)>,
    caps: Seq<u64>,
    es: Seq<Entry>,
    k: nat,
    t0: u64,
    hrs: (u64, u64, u64),
) -> bool {
    forall|j: int|
        0 <= j < es.len() ==> (#[trigger] es[j]).2.len() == k && exists|s0: Seq<(u64, u64)>|
            #[trigger] hist(order, caps, es[j].2, k) == Some((t0, s0, es[j].1 as int)) && es[j].0 == arrive_state(s0, t0, hrs)
}

/// `complete` for entries taken on to the arrival of horse `hrs`.
spec fn complete_arrived(
    order: Seq<(u64, u64, u64)>,
    caps: Seq<u64>,
    es: Seq<Entry>,
    k: nat,
    t0: u64,
    hrs: (u64, u64, u64),
) -> bool {
    forall|sol: Seq<(u64, u64)>|
        (#[trigger] hist(order, caps, sol, k)) is Some ==> hist(order, caps, sol, k).unwrap().0 == t0 && has_entry_le(
            es,
            arrive_state(hist(order, caps, sol, k).unwrap().1, t0, hrs),
            hist(order, caps, sol, k).unwrap().2,
        )
}

/// Taking the entries on to an arrival keeps them distinct, sound and
/// complete.
proof fn lemma_arrive(order: Seq<(u64, u64, u64)>, caps: Seq<u64>, es0: Seq<Entry>, k: nat, t0: u64, hrs: (u64, u64, u64))
    requires
        distinct_keys(es0),
        sound(order, caps, es0, k, t0),
        complete(order, caps, es0, k, t0),
    ensures
        distinct_keys(arrive_entries(es0, t0, hrs)),
        sound_arrived(order, caps, arrive_entries(es0, t0, hrs), k, t0, hrs),
        complete_arrived(order, caps, arrive_entries(es0, t0, hrs), k, t0, hrs),
{
    let es = arrive_entries(es0, t0, hrs);
    let dt = (hrs.0 - t0) as u64;
    if hrs.0 > t0 {
        lemma_advance_distinct(es0, dt);
        lemma_advance_from(es0, dt);
        lemma_advance_le(es0, dt);
    }
    assert forall|j: int| 0 <= j < es.len() implies (#[trigger] es[j]).2.len() == k && exists|s0: Seq<(u64, u64)>|
        #[trigger] hist(order, caps, es[j].2, k) == Some((t0, s0, es[j].1 as int)) && es[j].0 == arrive_state(s0, t0, hrs) by {
        if hrs.0 > t0 {
            let i = choose|i: int| 0 <= i < es0.len() && #[trigger] es[j] == advanced_entry(es0[i], dt);
            assert(hist(order, caps, es0[i].2, k) == Some((t0, es0[i].0, es0[i].1 as int)));
            assert(es[j].0 == arrive_state(es0[i].0, t0, hrs));
            assert(hist(order, caps, es[j].2, k) == Some((t0, es0[i].0, es[j].1 as int)));
        } else {
            assert(es[j] == es0[j]);
            assert(hist(order, caps, es[j].2, k) == Some((t0, es0[j].0, es0[j].1 as int)));
            assert(es[j].0 == arrive_state(es0[j].0, t0, hrs));
        }
    }
    assert forall|sol: Seq<(u64, u64)>| (#[trigger] hist(order, caps, sol, k)) is Some implies hist(order, caps, sol, k).unwrap().0
        == t0 && has_entry_le(es, arrive_state(hist(order, caps, sol, k).unwrap().1, t0, hrs), hist(order, caps, sol, k).unwrap().2) by {
        let x = hist(order, caps, sol, k).unwrap();
        assert(has_entry_le(es0, x.1, x.2));
        if hrs.0 > t0 {
            let i = choose|i: int| 0 <= i < es0.len() && (#[trigger] es0[i]).0 == x.1 && es0[i].1 <= x.2;
            assert(has_entry_le(es, advanced(es0[i].0, dt), es0[i].1 as int));
        }
    }
}

/// Parking horse `k - 1` in every way from sound and complete entries
/// gives sound and complete entries for the first `k` horses.
proof fn lemma_place_step(order: Seq<(u64, u64, u64)>, caps: Seq<u64>, es: Seq<Entry>, k: nat, t0: u64)
    requires
        0 < k <= order.len(),
        caps.len() <= u64::MAX,
        distinct_keys(es),
        sound_arrived(order, caps, es, (k - 1) as nat, t0, order[k - 1]),
        complete_arrived(order, caps, es, (k - 1) as nat, t0, order[k - 1]),
        place_all(es, caps, order[k - 1].1, order[k - 1].2, es.len()) is Some,
    ensures
        distinct_keys(place_all(es, caps, order[k - 1].1, order[k - 1].2, es.len()).unwrap()),
        sound(order, caps, place_all(es, caps, order[k - 1].1, order[k - 1].2, es.len()).unwrap(), k, arrive_time(t0, order[k - 1])),
        complete(order, caps, place_all(es, caps, order[k - 1].1, order[k - 1].2, es.len()).unwrap(), k, arrive_time(t0, order[k - 1])),
{
    let k1 = (k - 1) as nat;
    let hrs = order[k1 as int];
    let t = arrive_time(t0, hrs);
    let es2 = place_all(es, caps, hrs.1, hrs.2, es.len()).unwrap();
    lemma_place_all(es, caps, hrs.1, hrs.2, es.len());
    assert forall|j: int| 0 <= j < es2.len() implies (#[trigger] es2[j]).2.len() == k && hist(order, caps, es2[j].2, k) == Some(
        (t, es2[j].0, es2[j].1 as int),
    ) by {
        let i = choose|i: int| 0 <= i < es.len() && placed_from(#[trigger] es2[j], #[trigger] es[i], caps, hrs.1, hrs.2);
        let e = es[i];
        let left = room(caps, e.0).unwrap();
        let lvl = choose|lvl: u64|
            lvl < caps.len() && left[lvl as int] != 0 && e.1 + hrs.1 * lvl <= u64::MAX && es2[j] == #[trigger] placed_entry(
                e.0,
                e.1,
                e.2,
                hrs.1,
                hrs.2,
                lvl,
            );
        lemma_room_len(caps, e.0);
        let s0 = choose|s0: Seq<(u64, u64)>|
            #[trigger] hist(order, caps, e.2, k1) == Some((t0, s0, e.1 as int)) && e.0 == arrive_state(s0, t0, hrs);
        let sol2 = e.2.push((hrs.2, lvl));
        lemma_hist_prefix(order, caps, sol2, e.2, k1);
        assert(sol2[k - 1] == (hrs.2, lvl));
    }
    assert forall|sol: Seq<(u64, u64)>| (#[trigger] hist(order, caps, sol, k)) is Some implies hist(order, caps, sol, k).unwrap().0
        == t && has_entry_le(es2, hist(order, caps, sol, k).unwrap().1, hist(order, caps, sol, k).unwrap().2) by {
        let x0 = hist(order, caps, sol, k1).unwrap();
        let s = arrive_state(x0.1, t0, hrs);
        assert(has_entry_le(es, s, x0.2));
        let i = choose|i: int| 0 <= i < es.len() && (#[trigger] es[i]).0 == s && es[i].1 <= x0.2;
        let left = room(caps, s).unwrap();
        let lvl = sol[k - 1].1;
        lemma_room_len(caps, s);
        assert(entry_placed(es2, es[i], caps, hrs.1, hrs.2));
        assert(level_placed(es2, es[i].0, es[i].1, es[i].2, left, hrs.1, hrs.2, lvl));
        let pe = placed_entry(es[i].0, es[i].1, es[i].2, hrs.1, hrs.2, lvl);
        let w = choose|w: int| 0 <= w < es2.len() && (#[trigger] es2[w]).0 == pe.0 && es2[w].1 <= es[i].1 + hrs.1 * lvl;
        assert(es[i].1 + hrs.1 * lvl <= x0.2 + hrs.1 * lvl) by (nonlinear_arith)
            requires
                es[i].1 <= x0.2,
        ;
    }
}

/// After the first `k` horses the entries are distinct, sound and complete.
proof fn lemma_run(order: Seq<(u64, u64, u64)>, caps: Seq<u64>, k: nat)
    requires
        k <= order.len(),
        caps.len() <= u64::MAX,
        run(order, caps, k) is Some,
    ensures
        distinct_keys(run(order, caps, k).unwrap().1),
        sound(order, caps, run(order, caps, k).unwrap().1, k, run(order, caps, k).unwrap().0),
        complete(order, caps, run(order, caps, k).unwrap().1, k, run(order, caps, k).unwrap().0),
    decreases k,
{
    let st = run(order, caps, k).unwrap();
    if k == 0 {
        assert(st.1[0].0 == Seq::<(u64, u64)>::empty());
        assert forall|sol: Seq<(u64, u64)>| (#[trigger] hist(order, caps, sol, k)) is Some implies hist(order, caps, sol, k).unwrap().0
            == st.0 && has_entry_le(st.1, hist(order, caps, sol, k).unwrap().1, hist(order, caps, sol, k).unwrap().2) by {
            assert(st.1[0].0 == hist(order, caps, sol, k).unwrap().1);
        }
    } else {
        let k1 = (k - 1) as nat;
        lemma_run(order, caps, k1);
        let st0 = run(order, caps, k1).unwrap();
        let hrs = order[k1 as int];
        lemma_arrive(order, caps, st0.1, k1, st0.0, hrs);
        let es = arrive_entries(st0.1, st0.0, hrs);
        assert(st == (arrive_time(st0.0, hrs), place_all(es, caps, hrs.1, hrs.2, es.len()).unwrap()));
        lemma_place_step(order, caps, es, k, st0.0);
    }
}

/// Once all horses can have left, no horse is parked.
proof fn lemma_advanced_max(s: Seq<(u64, u64)>)
    ensures
        advanced(s, u64::MAX) == Seq::<(u64, u64)>::empty(),
    decreases s.len(),
{
    if s.len() > 0 {
        lemma_advanced_max(s.drop_last());
    }
}

/// The choices found park every horse, in the order they are handled, on
/// a level with room when it arrives, and their total cost is the cost
/// found.
pub proof fn lemma_best_is_realized(horses: Seq<(u64, u64)>, caps: Seq<u64>)
    requires
        caps.len() <= u64::MAX,
        best_entry(horses, caps) is Some,
    ensures
        best_entry(horses, caps).unwrap().2.len() == arrival(horses).len(),
        hist(arrival(horses), caps, best_entry(horses, caps).unwrap().2, arrival(horses).len()) is Some,
        hist(arrival(horses), caps, best_entry(horses, caps).unwrap().2, arrival(horses).len()).unwrap().2
            == best_entry(horses, caps).unwrap().1 as int,
{
    let order = arrival(horses);
    let st = handled(horses, caps).unwrap();
    lemma_run(order, caps, order.len());
    let fin = advance_entries(st.1, u64::MAX);
    lemma_advance_from(st.1, u64::MAX);
    let i = choose|i: int| 0 <= i < st.1.len() && #[trigger] fin[0] == advanced_entry(st.1[i], u64::MAX);
    assert(hist(order, caps, st.1[i].2, order.len()) == Some((st.0, st.1[i].0, st.1[i].1 as int)));
}

/// Every way of parking all horses, in the order they are handled, each on
/// a level with room when it arrives, costs at least the cost found; so
/// where one exists and the search does not overflow, a cheapest one is
/// found.
pub proof fn lemma_best_is_cheapest(horses: Seq<(u64, u64)>, caps: Seq<u64>, sol: Seq<(u64, u64)>)
    requires
        caps.len() <= u64::MAX,
        handled(horses, caps) is Some,
        hist(arrival(horses), caps, sol, arrival(horses).len()) is Some,
    ensures
        best_entry(horses, caps) is Some,
        best_entry(horses, caps).unwrap().1 <= hist(arrival(horses), caps, sol, arrival(horses).len()).unwrap().2,
{
    let order = arrival(horses);
    let n = order.len();
    let st = handled(horses, caps).unwrap();
    lemma_run(order, caps, n);
    let x = hist(order, caps, sol, n).unwrap();
    assert(has_entry_le(st.1, x.1, x.2));
    let i = choose|i: int| 0 <= i < st.1.len() && (#[trigger] st.1[i]).0 == x.1 && st.1[i].1 <= x.2;
    let fin = advance_entries(st.1, u64::MAX);
    lemma_advance_le(st.1, u64::MAX);
    lemma_advance_from(st.1, u64::MAX);
    lemma_advance_distinct(st.1, u64::MAX);
    assert(has_entry_le(fin, advanced(st.1[i].0, u64::MAX), st.1[i].1 as int));
    let w = choose|w: int| 0 <= w < fin.len() && (#[trigger] fin[w]).0 == advanced(st.1[i].0, u64::MAX) && fin[w].1 <= st.1[i].1;
    assert(fin.len() == 1) by {
        if fin.len() > 1 {
            let o = if w == 0 { 1int } else { 0int };
            let a = choose|a: int| 0 <= a < st.1.len() && #[trigger] fin[o] == advanced_entry(st.1[a], u64::MAX);
            lemma_advanced_max(st.1[a].0);
            lemma_advanced_max(st.1[i].0);
            if o < w {
                assert(fin[o].0 != fin[w].0);
            } else {
                assert(fin[w].0 != fin[o].0);
            }
        }
    }
}

} // verus!
