//! Books come back (`+`) and go out (any other byte) in order; a book that
//! goes out while none is on the shelf is reported by its position.
use vstd::prelude::*;

verus! {

/// Books on the shelf after the events of `b`: one more for each `+`, one
/// fewer for each other byte.
pub open spec fn shelf(b: Seq<u8>) -> int
    decreases b.len(),
{
    if b.len() == 0 {
        0
    } else {
        shelf(b.drop_last()) + if b.last() == 43u8 { 1int } else { -1int }
    }
}

/// The positions (counted from 1) of the events that take a book from an
/// empty shelf.
pub open spec fn short_events(b: Seq<u8>) -> Seq<usize>
    decreases b.len(),
{
    if b.len() == 0 {
        Seq::empty()
    } else {
        let prev = short_events(b.drop_last());
        if b.last() != 43u8 && shelf(b.drop_last()) == 0 {
            prev.push(b.len() as usize)
        } else {
            prev
        }
    }
}

proof fn lemma_shelf_bound(b: Seq<u8>)
    ensures
        -b.len() <= shelf(b) <= b.len(),
    decreases b.len(),
{
    if b.len() > 0 {
        lemma_shelf_bound(b.drop_last());
    }
}

/// The positions (counted from 1) of the events that take a book from an
/// empty shelf.
pub fn book_returns(b: &[u8]) -> (r: Vec<usize>)
    requires
        b@.len() <= i32::MAX,
    ensures
        r@ == short_events(b@),
{
    let mut r: Vec<usize> = Vec::new();
    let mut floor: i32 = 0;
    let mut i: usize = 0;
    while i < b.len()
        invariant
            i <= b@.len() <= i32::MAX,
            floor == shelf(b@.take(i as int)),
            r@ == short_events(b@.take(i as int)),
        decreases b@.len() - i,
    {
        proof {
            lemma_shelf_bound(b@.take(i as int));
            assert(b@.take(i + 1).drop_last() =~= b@.take(i as int));
        }
        if b[i] == 43u8 {
            floor = floor + 1;
        } else {
            if floor == 0 {
                r.push(i + 1);
            }
            floor = floor - 1;
        }
        i = i + 1;
    }
    proof {
        assert(b@.take(i as int) =~= b@);
    }
    r
}

/// How many of the events are returns (`+`).
pub open spec fn returns_in(b: Seq<u8>) -> nat {
    b.filter(|c: u8| c == 43u8).len()
}

/// How many of the events take a book out (any byte but `+`).
pub open spec fn takes_in(b: Seq<u8>) -> nat {
    b.filter(|c: u8| c != 43u8).len()
}

/// The shelf holds the returns less the books taken.
proof fn lemma_shelf_counts(b: Seq<u8>)
    ensures
        shelf(b) == returns_in(b) - takes_in(b),
    decreases b.len(),
{
    if b.len() > 0 {
        lemma_shelf_counts(b.drop_last());
        reveal(Seq::filter);
        assert(b.filter(|c: u8| c == 43u8) == (if b.last() == 43u8 {
            b.drop_last().filter(|c: u8| c == 43u8).push(b.last())
        } else {
            b.drop_last().filter(|c: u8| c == 43u8)
        }));
        assert(b.filter(|c: u8| c != 43u8) == (if b.last() != 43u8 {
            b.drop_last().filter(|c: u8| c != 43u8).push(b.last())
        } else {
            b.drop_last().filter(|c: u8| c != 43u8)
        }));
    }
}

/// The reported positions only grow, and each is at most the count.
proof fn lemma_short_events_bounds(b: Seq<u8>)
    requires
        b.len() <= usize::MAX,
    ensures
        forall|i: int| 0 <= i < short_events(b).len() ==> 1 <= #[trigger] short_events(b)[i] <= b.len(),
        forall|i: int, j: int| 0 <= i < j < short_events(b).len() ==> short_events(b)[i] < short_events(b)[j],
    decreases b.len(),
{
    if b.len() > 0 {
        let pre = b.drop_last();
        lemma_short_events_bounds(pre);
        let prev = short_events(pre);
        let r = short_events(b);
        assert forall|i: int| 0 <= i < r.len() implies 1 <= #[trigger] r[i] <= b.len() by {
            if i < prev.len() {
                assert(r[i] == prev[i]);
            }
        }
        assert forall|i: int, j: int| 0 <= i < j < r.len() implies r[i] < r[j] by {
            assert(r[i] == prev[i]);
            if j < prev.len() {
                assert(r[j] == prev[j]);
            } else {
                assert(prev[i] <= pre.len());
            }
        }
    }
}

/// Position `p` (counted from 1) is reported exactly when event `p` takes a
/// book and, before it, as many books were returned as taken: each report
/// depends on its own position alone, not on the reports before it. The
/// reports come in increasing order, each once.
pub proof fn lemma_reports_are_empty_shelf_takes(b: Seq<u8>)
    requires
        b.len() <= usize::MAX,
    ensures
        forall|p: int|
            1 <= p <= b.len() ==> (short_events(b).contains(p as usize) <==> (b[p - 1] != 43u8 && returns_in(
                #[trigger] b.take(p - 1),
            ) == takes_in(b.take(p - 1)))),
        forall|x: usize| short_events(b).contains(x) ==> 1 <= x <= b.len(),
        forall|i: int, j: int| 0 <= i < j < short_events(b).len() ==> short_events(b)[i] < short_events(b)[j],
    decreases b.len(),
{
    lemma_short_events_bounds(b);
    if b.len() > 0 {
        let pre = b.drop_last();
        lemma_reports_are_empty_shelf_takes(pre);
        lemma_short_events_bounds(pre);
        lemma_shelf_counts(pre);
        let prev = short_events(pre);
        assert forall|p: int|
            1 <= p <= b.len() implies (short_events(b).contains(p as usize) <==> (b[p - 1] != 43u8 && returns_in(
                #[trigger] b.take(p - 1),
            ) == takes_in(b.take(p - 1)))) by {
            if p < b.len() {
                assert(b.take(p - 1) =~= pre.take(p - 1));
                assert(b[p - 1] == pre[p - 1]);
                assert(pre.take(p - 1) == pre.take(p - 1));
                if short_events(b).contains(p as usize) {
                    let i = choose|i: int| 0 <= i < short_events(b).len() && short_events(b)[i] == p as usize;
                    if i == prev.len() {
                        assert(short_events(b)[i] == b.len() as usize);
                    } else {
                        assert(prev[i] == p as usize);
                    }
                }
                if prev.contains(p as usize) {
                    let i = choose|i: int| 0 <= i < prev.len() && prev[i] == p as usize;
                    assert(short_events(b)[i] == p as usize);
                }
            } else {
                assert(b.take(p - 1) =~= pre);
                if short_events(b).contains(p as usize) {
                    let i = choose|i: int| 0 <= i < short_events(b).len() && short_events(b)[i] == p as usize;
                    if i < prev.len() {
                        assert(prev[i] <= pre.len());
                    }
                }
                if b[p - 1] != 43u8 && shelf(pre) == 0 {
                    assert(short_events(b)[prev.len() as int] == p as usize);
                }
            }
        }
        assert forall|x: usize| short_events(b).contains(x) implies 1 <= x <= b.len() by {
            let i = choose|i: int| 0 <= i < short_events(b).len() && short_events(b)[i] == x;
        }
    }
}

} // verus!
