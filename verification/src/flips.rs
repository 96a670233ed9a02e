//! Choosing which columns of a 0/1 table to flip so that the most rows
//! come out all equal: a row can be made all ones by flipping its zero
//! columns, or all zeros by flipping its one columns.
use vstd::prelude::*;
use std::collections::HashMap;

verus! {

/// Bit `b` of `x` is set.
pub open spec fn bit(x: u64, b: int) -> bool {
    0 <= b < 64 && (x >> (b as u64)) & 1 == 1
}

/// A row written as digits one character apart has a one in column `b`:
/// some `1` byte sits at index `2 * b` or `2 * b + 1`.
pub open spec fn has_one(line: Seq<u8>, b: int) -> bool {
    exists|i: int| 0 <= i < line.len() && line[i] == 49u8 && #[trigger] column(i) == b
}

/// The column of byte `i` of a row.
pub open spec fn column(i: int) -> int {
    i / 2
}

proof fn lemma_bit_or(x: u64, k: u64, b: u64)
    requires
        k < 64,
        b < 64,
    ensures
        ((x | (1u64 << k)) >> b) & 1 == 1 <==> ((x >> b) & 1 == 1 || b == k),
{
    assert(((x | (1u64 << k)) >> b) & 1 == 1 <==> ((x >> b) & 1 == 1 || b == k)) by (bit_vector)
        requires
            k < 64,
            b < 64,
    ;
}

proof fn lemma_bit_zero(b: u64)
    requires
        b < 64,
    ensures
        (0u64 >> b) & 1 == 0,
{
    assert((0u64 >> b) & 1 == 0) by (bit_vector);
}

/// The word with the bits of the columns of the ones of a row: byte `i`
/// set to `1` sets bit `i / 2`.
pub open spec fn row_pattern(line: Seq<u8>) -> u64
    decreases line.len(),
{
    if line.len() == 0 {
        0
    } else {
        let p = row_pattern(line.drop_last());
        if line.last() == 49u8 {
            p | (1u64 << (((line.len() - 1) / 2) as u64))
        } else {
            p
        }
    }
}

/// The columns with a one in a row, as the bits of a word.
pub fn row_bits(line: &[u8]) -> (r: u64)
    requires
        line@.len() <= 128,
    ensures
        r == row_pattern(line@),
        forall|b: int| 0 <= b < 64 ==> (bit(r, b) <==> has_one(line@, b)),
{
    let mut r: u64 = 0;
    let mut i: usize = 0;
    proof {
        assert forall|b: int| 0 <= b < 64 implies !bit(r, b) by {
            lemma_bit_zero(b as u64);
        }
    }
    while i < line.len()
        invariant
            i <= line@.len() <= 128,
            r == row_pattern(line@.take(i as int)),
            forall|b: int| 0 <= b < 64 ==> (bit(r, b) <==> has_one(line@.take(i as int), b)),
        decreases line@.len() - i,
    {
        let ghost r0 = r;
        if line[i] == 49u8 {
            r = r | (1u64 << ((i / 2) as u64));
        }
        proof {
            let t0 = line@.take(i as int);
            let t1 = line@.take(i + 1);
            assert(t1.drop_last() =~= t0);
            assert forall|b: int| 0 <= b < 64 implies (bit(r, b) <==> has_one(t1, b)) by {
                assert(bit(r0, b) <==> has_one(t0, b));
                let one = line@[i as int] == 49u8;
                assert(has_one(t1, b) <==> (has_one(t0, b) || (one && b == i / 2))) by {
                    if has_one(t1, b) {
                        let q = choose|q: int| 0 <= q < t1.len() && t1[q] == 49u8 && #[trigger] column(q) == b;
                        if q < i {
                            assert(t0[q] == t1[q]);
                            assert(has_one(t0, b));
                        }
                    }
                    if has_one(t0, b) {
                        let q = choose|q: int| 0 <= q < t0.len() && t0[q] == 49u8 && #[trigger] column(q) == b;
                        assert(t1[q] == t0[q]);
                        assert(has_one(t1, b));
                    }
                    if one && b == i / 2 {
                        assert(t1[i as int] == 49u8);
                        assert(column(i as int) == b);
                        assert(has_one(t1, b));
                    }
                }
                if one {
                    lemma_bit_or(r0, (i / 2) as u64, b as u64);
                    assert(bit(r, b) <==> (bit(r0, b) || b == i / 2));
                } else {
                    assert(r == r0);
                }
            }
        }
        i = i + 1;
    }
    proof {
        assert(line@.take(i as int) =~= line@);
    }
    r
}

/// The word with the bits of every column of a table `cols` wide.
pub open spec fn mask_of(cols: usize) -> u64 {
    if cols < 64 {
        ((1u64 << (cols as u64)) - 1) as u64
    } else {
        u64::MAX
    }
}

/// The bits below `cols`: every column of a table `cols` wide.
pub fn full_mask(cols: usize) -> (r: u64)
    ensures
        r == mask_of(cols),
        forall|b: int| 0 <= b < 64 ==> (bit(r, b) <==> b < cols),
{
    if cols < 64 {
        let c = cols as u64;
        assert((1u64 << c) >= 1) by (bit_vector)
            requires
                c < 64,
        ;
        let r = (1u64 << c) - 1;
        proof {
            assert forall|b: int| 0 <= b < 64 implies (bit(r, b) <==> b < cols) by {
                let bb = b as u64;
                assert(((((1u64 << c) - 1) as u64) >> bb) & 1 == 1 <==> bb < c) by (bit_vector)
                    requires
                        c < 64,
                        bb < 64,
                ;
            }
        }
        r
    } else {
        proof {
            assert forall|b: int| 0 <= b < 64 implies bit(u64::MAX, b) by {
                let bb = b as u64;
                assert((0xffff_ffff_ffff_ffffu64 >> bb) & 1 == 1) by (bit_vector)
                    requires
                        bb < 64,
                ;
            }
        }
        u64::MAX
    }
}

/// The row flipped within the table: the columns of `mask` where `x` has
/// no one.
pub open spec fn flipped(mask: u64, x: u64) -> u64 {
    mask & !x
}

/// One more of `k`.
pub open spec fn bump(m: Map<u64, nat>, k: u64) -> Map<u64, nat> {
    m.insert(k, if m.contains_key(k) { m[k] + 1 } else { 1 })
}

/// For each pattern, how many rows can be made all equal by flipping the
/// columns where the pattern has a one: each row counts for itself and for
/// its flip within `mask`.
pub open spec fn tally(pats: Seq<u64>, mask: u64) -> Map<u64, nat>
    decreases pats.len(),
{
    if pats.len() == 0 {
        Map::empty()
    } else {
        let x = pats.last();
        bump(bump(tally(pats.drop_last(), mask), x), flipped(mask, x))
    }
}

proof fn lemma_tally_bound(pats: Seq<u64>, mask: u64)
    ensures
        forall|k: u64| #[trigger] tally(pats, mask).contains_key(k) ==> tally(pats, mask)[k] <= 2 * pats.len(),
    decreases pats.len(),
{
    if pats.len() > 0 {
        let prev = pats.drop_last();
        lemma_tally_bound(prev, mask);
        let t = tally(prev, mask);
        let x = pats.last();
        let t1 = bump(t, x);
        assert forall|k: u64| #[trigger] t1.contains_key(k) implies t1[k] <= 2 * prev.len() + 1 by {
            if k != x {
                assert(t.contains_key(k));
            }
        }
        let t2 = bump(t1, flipped(mask, x));
        assert forall|k: u64| #[trigger] t2.contains_key(k) implies t2[k] <= 2 * pats.len() by {
            if k != flipped(mask, x) {
                assert(t1.contains_key(k));
            }
        }
    }
}

/// The row patterns of a table, one word per row.
pub fn table_patterns(rows: &Vec<Vec<u8>>) -> (r: Vec<u64>)
    requires
        forall|j: int| 0 <= j < rows@.len() ==> (#[trigger] rows@[j])@.len() <= 128,
    ensures
        r@.len() == rows@.len(),
        forall|j: int| 0 <= j < rows@.len() ==> #[trigger] r@[j] == row_pattern(rows@[j]@),
        forall|j: int, b: int| 0 <= j < rows@.len() && 0 <= b < 64 ==> (#[trigger] bit(r@[j], b) <==> has_one(rows@[j]@, b)),
{
    let mut r: Vec<u64> = Vec::new();
    let mut j: usize = 0;
    while j < rows.len()
        invariant
            j <= rows@.len(),
            r@.len() == j,
            forall|q: int| 0 <= q < j ==> #[trigger] r@[q] == row_pattern(rows@[q]@),
            forall|q: int| 0 <= q < rows@.len() ==> (#[trigger] rows@[q])@.len() <= 128,
            forall|q: int, b: int| 0 <= q < j && 0 <= b < 64 ==> (#[trigger] bit(r@[q], b) <==> has_one(rows@[q]@, b)),
        decreases rows@.len() - j,
    {
        let x = row_bits(rows[j].as_slice());
        r.push(x);
        j = j + 1;
    }
    r
}

/// How many rows each pattern makes all equal (see `tally`).
pub fn count_patterns(pats: &Vec<u64>, mask: u64) -> (r: HashMap<u64, usize>)
    requires
        pats@.len() < usize::MAX / 2,
    ensures
        r@.dom() == tally(pats@, mask).dom(),
        forall|k: u64| #[trigger] r@.contains_key(k) ==> r@[k] == tally(pats@, mask)[k],
{
    broadcast use {
        vstd::std_specs::hash::axiom_u64_obeys_hash_table_key_model,
        vstd::std_specs::hash::axiom_random_state_builds_valid_hashers,
        vstd::std_specs::hash::axiom_maps_deref_key_to_value,
        vstd::std_specs::hash::axiom_contains_deref_key,
    };
    let mut counts: HashMap<u64, usize> = HashMap::new();
    let mut j: usize = 0;
    while j < pats.len()
        invariant
            j <= pats@.len() < usize::MAX / 2,
            counts@.dom() == tally(pats@.take(j as int), mask).dom(),
            forall|k: u64| #[trigger] counts@.contains_key(k) ==> counts@[k] == tally(pats@.take(j as int), mask)[k],
        decreases pats@.len() - j,
    {
        let x = pats[j];
        let ghost t0 = tally(pats@.take(j as int), mask);
        proof {
            assert(pats@.take(j + 1).drop_last() =~= pats@.take(j as int));
            lemma_tally_bound(pats@.take(j as int), mask);
        }
        let c = match counts.get(&x) {
            Some(v) => *v + 1,
            None => 1,
        };
        counts.insert(x, c);
        let y = mask & !x;
        proof {
            lemma_tally_bound(pats@.take(j + 1), mask);
        }
        let d = match counts.get(&y) {
            Some(v) => *v + 1,
            None => 1,
        };
        counts.insert(y, d);
        proof {
            let t1 = tally(pats@.take(j + 1), mask);
            assert(t1 == bump(bump(t0, x), flipped(mask, x)));
            assert(counts@.dom() =~= t1.dom());
        }
        j = j + 1;
    }
    proof {
        assert(pats@.take(j as int) =~= pats@);
    }
    counts
}

/// How many of the lowest `n` bits of `x` are clear.
pub open spec fn zeros_below(x: u64, n: nat) -> nat
    decreases n,
{
    if n == 0 {
        0
    } else {
        zeros_below(x, (n - 1) as nat) + if bit(x, n - 1) { 0nat } else { 1nat }
    }
}

/// How many bits of `x` are clear.
pub fn zero_count(x: u64) -> (r: u32)
    ensures
        r == zeros_below(x, 64),
{
    let mut z: u32 = 0;
    let mut i: u64 = 0;
    while i < 64
        invariant
            i <= 64,
            z == zeros_below(x, i as nat),
            z <= i,
        decreases 64 - i,
    {
        if (x >> i) & 1 != 1 {
            z = z + 1;
        }
        i = i + 1;
    }
    z
}

/// Ranks `(c1, z1)` no higher than `(c2, z2)`: fewer rows, or as many
/// rows and no more flips.
pub open spec fn ranks_below(c1: int, z1: int, c2: int, z2: int) -> bool {
    c1 < c2 || (c1 == c2 && z1 <= z2)
}

/// A pattern that makes the most rows equal, and among those one with the
/// most clear bits (the fewest columns flipped), with its count. Of equally
/// ranked patterns, which one comes out depends on the map's order.
pub fn best_pattern(counts: &HashMap<u64, usize>) -> (r: Option<(u64, usize)>)
    ensures
        r is None <==> counts@.dom().len() == 0,
        r matches Some(b) ==> {
            &&& counts@.contains_key(b.0)
            &&& counts@[b.0] == b.1
            &&& forall|k: u64| #[trigger] counts@.contains_key(k) ==> ranks_below(
                counts@[k] as int,
                zeros_below(k, 64) as int,
                b.1 as int,
                zeros_below(b.0, 64) as int,
            )
        },
{
    broadcast use {
        vstd::std_specs::hash::axiom_u64_obeys_hash_table_key_model,
        vstd::std_specs::hash::axiom_random_state_builds_valid_hashers,
        vstd::std_specs::hash::axiom_spec_hash_map_iter,
        vstd::std_specs::hash::axiom_hashmap_view_finite_dom,
    };
    let mut best: Option<(u64, usize, u32)> = None;
    for e in it: counts.iter()
        invariant
            best is None <==> it.index() == 0,
            best matches Some(b) ==> {
                &&& counts@.contains_key(b.0)
                &&& counts@[b.0] == b.1
                &&& b.2 == zeros_below(b.0, 64)
                &&& forall|i: int| 0 <= i < it.index() ==> ranks_below(
                    counts@[*it.seq()[i].0] as int,
                    zeros_below(*it.seq()[i].0, 64) as int,
                    b.1 as int,
                    b.2 as int,
                )
            },
    {
        let (k, v) = e;
        let z = zero_count(*k);
        match best {
            None => {
                best = Some((*k, *v, z));
            },
            Some(b) => {
                if b.1 < *v || (b.1 == *v && b.2 <= z) {
                    best = Some((*k, *v, z));
                }
            },
        }
    }
    match best {
        Some(b) => Some((b.0, b.1)),
        None => None,
    }
}

/// The columns below `cols` whose bit is set in `x`, in increasing order.
pub fn set_columns(x: u64, cols: usize) -> (r: Vec<usize>)
    requires
        cols <= 64,
    ensures
        forall|k: int| 0 <= k < r@.len() ==> r@[k] < cols && bit(x, #[trigger] r@[k] as int),
        forall|k1: int, k2: int| 0 <= k1 < k2 < r@.len() ==> #[trigger] r@[k1] < #[trigger] r@[k2],
        forall|b: int| 0 <= b < cols && bit(x, b) ==> r@.contains(b as usize),
{
    let mut r: Vec<usize> = Vec::new();
    let mut i: usize = 0;
    while i < cols
        invariant
            i <= cols <= 64,
            forall|k: int| 0 <= k < r@.len() ==> r@[k] < i && bit(x, #[trigger] r@[k] as int),
            forall|k1: int, k2: int| 0 <= k1 < k2 < r@.len() ==> #[trigger] r@[k1] < #[trigger] r@[k2],
            forall|b: int| 0 <= b < i && bit(x, b) ==> r@.contains(b as usize),
        decreases cols - i,
    {
        let ii = i as u64;
        let set = (x >> ii) & 1 == 1;
        assert(set == bit(x, i as int));
        if set {
            let ghost r0 = r@;
            r.push(i);
            proof {
                assert forall|b: int| 0 <= b < i + 1 && bit(x, b) implies r@.contains(b as usize) by {
                    if b < i {
                        let k = choose|k: int| 0 <= k < r0.len() && r0[k] == b as usize;
                        assert(r@[k] == b as usize);
                    } else {
                        assert(r@[r0.len() as int] == i);
                    }
                }
            }
        }
        i = i + 1;
    }
    r
}

/// For each pattern, how many rows of the table it makes all equal.
pub open spec fn table_tally(rows: Seq<Vec<u8>>, cols: usize) -> Map<u64, nat> {
    tally(rows.map_values(|l: Vec<u8>| row_pattern(l@)), mask_of(cols))
}

/// The answer for a table of `cols` columns: the most rows that flipping
/// some columns makes all equal, and the columns of a pattern that does it
/// (see `best_pattern`). `None` for a table with no rows.
pub fn flips_answer(rows: &Vec<Vec<u8>>, cols: usize) -> (r: Option<(usize, Vec<usize>)>)
    requires
        cols <= 64,
        rows@.len() < usize::MAX / 2,
        forall|j: int| 0 <= j < rows@.len() ==> (#[trigger] rows@[j])@.len() <= 128,
    ensures
        r is None <==> rows@.len() == 0,
        r matches Some(ans) ==> exists|p: u64| {
            &&& #[trigger] table_tally(rows@, cols).contains_key(p)
            &&& ans.0 == table_tally(rows@, cols)[p]
            &&& (forall|k: u64| #[trigger] table_tally(rows@, cols).contains_key(k) ==> ranks_below(
                table_tally(rows@, cols)[k] as int,
                zeros_below(k, 64) as int,
                table_tally(rows@, cols)[p] as int,
                zeros_below(p, 64) as int,
            ))
            &&& (forall|k: int| 0 <= k < ans.1@.len() ==> ans.1@[k] < cols && bit(p, #[trigger] ans.1@[k] as int))
            &&& (forall|k1: int, k2: int| 0 <= k1 < k2 < ans.1@.len() ==> #[trigger] ans.1@[k1] < #[trigger] ans.1@[k2])
            &&& (forall|b: int| 0 <= b < cols && bit(p, b) ==> ans.1@.contains(b as usize))
        },
{
    let mask = full_mask(cols);
    let pats = table_patterns(rows);
    let ghost ps = rows@.map_values(|l: Vec<u8>| row_pattern(l@));
    proof {
        assert(pats@ =~= ps);
    }
    let counts = count_patterns(&pats, mask);
    proof {
        if rows@.len() > 0 {
            let x = pats@.last();
            assert(tally(pats@, mask).contains_key(x));
            assert(counts@.contains_key(x));
            assert(counts@.dom().len() > 0);
        } else {
            assert(counts@.dom() =~= Set::<u64>::empty());
        }
    }
    match best_pattern(&counts) {
        Some(b) => {
            let cols_set = set_columns(b.0, cols);
            proof {
                let t = table_tally(rows@, cols);
                assert(t == tally(ps, mask));
                assert forall|k: u64| #[trigger] t.contains_key(k) implies ranks_below(t[k] as int, zeros_below(k, 64) as int, t[b.0] as int, zeros_below(b.0, 64) as int) by {
                    assert(counts@.contains_key(k));
                }
            }
            Some((b.1, cols_set))
        },
        None => None,
    }
}

/// How many rows each pattern makes all equal: the rows with exactly that
/// pattern (made all zeros by flipping their ones) plus the rows whose flip
/// within `mask` is that pattern (made all ones by flipping their zeros);
/// a pattern no row gives is not counted at all.
pub proof fn lemma_tally_counts(pats: Seq<u64>, mask: u64, k: u64)
    ensures
        (if tally(pats, mask).contains_key(k) { tally(pats, mask)[k] } else { 0 }) == pats.filter(|x: u64| x == k).len()
            + pats.filter(|x: u64| flipped(mask, x) == k).len(),
        tally(pats, mask).contains_key(k) ==> tally(pats, mask)[k] > 0,
    decreases pats.len(),
{
    reveal(Seq::filter);
    if pats.len() > 0 {
        lemma_tally_counts(pats.drop_last(), mask, k);
    }
}

} // verus!
