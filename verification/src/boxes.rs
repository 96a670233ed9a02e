//! Finding boxes in a picture of ones: runs of ones in each row are joined
//! when they lie close together, and each group is reported by its bounding
//! box. Also a packed bit grid.
use vstd::prelude::*;
use crate::bitwords::{lemma_mask_test, lemma_packed_set, lemma_zero_word, packed_bits};
use std::collections::HashMap;

verus! {

/// A grid of `height` rows of `width` bits, packed 64 to a word, all bits
/// starting clear. Cell `(x, y)` is bit `x + y * width`.
#[derive(Clone)]
pub struct Bits {
    height: usize,
    width: usize,
    bits: Vec<u64>,
}

impl View for Bits {
    type V = Seq<bool>;

    closed spec fn view(&self) -> Seq<bool> {
        packed_bits(self.bits@)
    }
}

impl Bits {
    /// The number of rows the grid was made with.
    pub closed spec fn height_spec(&self) -> usize {
        self.height
    }

    /// The number of columns the grid was made with.
    pub closed spec fn width_spec(&self) -> usize {
        self.width
    }

    /// A grid of `height * width` clear bits, with room for one word more
    /// than the cells strictly need.
    pub fn new(height: usize, width: usize) -> (r: Self)
        requires
            height * width <= usize::MAX,
        ensures
            r.height_spec() == height,
            r.width_spec() == width,
            r@.len() == ((height * width) / 64 + 1) * 64,
            forall|i: int| 0 <= i < r@.len() ==> !r@[i],
    {
        let words = (height * width) / 64 + 1;
        let mut bits: Vec<u64> = Vec::new();
        let mut k: usize = 0;
        while k < words
            invariant
                k <= words,
                bits@.len() == k,
                forall|j: int| 0 <= j < k ==> bits@[j] == 0,
            decreases words - k,
        {
            bits.push(0);
            k = k + 1;
        }
        let r = Self { height, width, bits };
        proof {
            assert forall|i: int| 0 <= i < r@.len() implies !r@[i] by {
                assert(r.bits@[i / 64] == 0);
                lemma_zero_word((i % 64) as u64);
            }
        }
        r
    }

    /// Whether cell `(x, y)` is set.
    pub fn get(&self, x: usize, y: usize) -> (r: bool)
        requires
            x + y * self.width_spec() < self@.len(),
            x + y * self.width_spec() <= usize::MAX,
        ensures
            r == self@[x + y * self.width_spec()],
    {
        let i = x + y * self.width;
        let ind = i / 64;
        let pos = (i % 64) as u64;
        proof {
            lemma_mask_test(self.bits@[ind as int], pos);
        }
        (self.bits[ind] & (1u64 << pos)) != 0
    }

    /// Sets cell `(x, y)`.
    pub fn set(&mut self, x: usize, y: usize)
        requires
            x + y * old(self).width_spec() < old(self)@.len(),
            x + y * old(self).width_spec() <= usize::MAX,
        ensures
            final(self).height_spec() == old(self).height_spec(),
            final(self).width_spec() == old(self).width_spec(),
            final(self)@ == old(self)@.update(x + y * old(self).width_spec(), true),
    {
        let i = x + y * self.width;
        let ind = i / 64;
        let pos = (i % 64) as u64;
        let w = self.bits[ind] | (1u64 << pos);
        proof {
            lemma_packed_set(self.bits@, i as int);
        }
        self.bits.set(ind, w);
    }
}


/// A bounding box `(x1, y1, x2, y2)`: the corners at the smallest and the
/// largest coordinates.
pub type Rect = (usize, usize, usize, usize);

/// The smallest box holding both `a` and `b`.
pub open spec fn rect_union(a: Rect, b: Rect) -> Rect {
    (
        if a.0 <= b.0 { a.0 } else { b.0 },
        if a.1 <= b.1 { a.1 } else { b.1 },
        if a.2 >= b.2 { a.2 } else { b.2 },
        if a.3 >= b.3 { a.3 } else { b.3 },
    )
}

/// Box `a` lies inside box `b`.
pub open spec fn rect_within(a: Rect, b: Rect) -> bool {
    b.0 <= a.0 && b.1 <= a.1 && a.2 <= b.2 && a.3 <= b.3
}

/// The well-formedness of a forest of ranges: parents `p`, the root `g` of
/// each range's group, the box `first` each range was added with, a rank
/// that grows towards the roots, and the box `roots` of each group.
#[verifier::opaque]
pub open spec fn forest_ok(
    p: Map<usize, usize>,
    g: Map<usize, usize>,
    first: Map<usize, Rect>,
    rank: Map<usize, nat>,
    bound: nat,
    roots: Map<usize, Rect>,
) -> bool {
    &&& g.dom() == p.dom()
    &&& first.dom() == p.dom()
    &&& rank.dom() == p.dom()
    &&& roots.dom() == Set::new(|k: usize| p.contains_key(k) && p[k] == k)
    &&& forall|k: usize| #[trigger] p.contains_key(k) ==> node_ok(p, g, first, rank, bound, roots, k)
    &&& forall|r: usize| #[trigger] roots.contains_key(r) ==> box_attained(p, g, first, roots[r], r)
}

/// Range `k` points into the forest, its group's root is a root, and its
/// first box lies in its group's box.
pub open spec fn node_ok(
    p: Map<usize, usize>,
    g: Map<usize, usize>,
    first: Map<usize, Rect>,
    rank: Map<usize, nat>,
    bound: nat,
    roots: Map<usize, Rect>,
    k: usize,
) -> bool {
    &&& p.contains_key(p[k])
    &&& p.contains_key(g[k])
    &&& p[g[k]] == g[k]
    &&& g[p[k]] == g[k]
    &&& (p[k] == k ==> g[k] == k)
    &&& (p[k] != k ==> rank[k] < rank[p[k]])
    &&& rank[k] <= bound
    &&& rect_within(first[k], roots[g[k]])
}

/// Each side of box `b` is a side of the first box of some range in the
/// group with root `r`.
pub open spec fn box_attained(
    p: Map<usize, usize>,
    g: Map<usize, usize>,
    first: Map<usize, Rect>,
    b: Rect,
    r: usize,
) -> bool {
    &&& (exists|k: usize| #![trigger g[k]] p.contains_key(k) && g[k] == r && first[k].0 == b.0)
    &&& (exists|k: usize| #![trigger g[k]] p.contains_key(k) && g[k] == r && first[k].1 == b.1)
    &&& (exists|k: usize| #![trigger g[k]] p.contains_key(k) && g[k] == r && first[k].2 == b.2)
    &&& (exists|k: usize| #![trigger g[k]] p.contains_key(k) && g[k] == r && first[k].3 == b.3)
}

/// A new range `key`, a group of its own, keeps the forest well formed.
pub proof fn lemma_forest_add(
    p: Map<usize, usize>,
    g: Map<usize, usize>,
    first: Map<usize, Rect>,
    rank: Map<usize, nat>,
    bound: nat,
    roots: Map<usize, Rect>,
    key: usize,
    b: Rect,
)
    requires
        forest_ok(p, g, first, rank, bound, roots),
        !p.contains_key(key),
    ensures
        forest_ok(
            p.insert(key, key),
            g.insert(key, key),
            first.insert(key, b),
            rank.insert(key, 0),
            bound,
            roots.insert(key, b),
        ),
{
    let p2 = p.insert(key, key);
    let g2 = g.insert(key, key);
    let f2 = first.insert(key, b);
    let rk2 = rank.insert(key, 0);
    let r2 = roots.insert(key, b);
    reveal(forest_ok);
    assert forall|r: usize| #[trigger] r2.contains_key(r) implies box_attained(p2, g2, f2, r2[r], r) by {
        if r == key {
            assert(g2[key] == key);
        } else {
            assert(roots.contains_key(r));
            assert(box_attained(p, g, first, roots[r], r));
            let k0 = choose|k: usize| #![trigger g[k]] p.contains_key(k) && g[k] == r && first[k].0 == roots[r].0;
            assert(g2[k0] == r);
            let k1 = choose|k: usize| #![trigger g[k]] p.contains_key(k) && g[k] == r && first[k].1 == roots[r].1;
            assert(g2[k1] == r);
            let k2 = choose|k: usize| #![trigger g[k]] p.contains_key(k) && g[k] == r && first[k].2 == roots[r].2;
            assert(g2[k2] == r);
            let k3 = choose|k: usize| #![trigger g[k]] p.contains_key(k) && g[k] == r && first[k].3 == roots[r].3;
            assert(g2[k3] == r);
        }
    }
    assert forall|k: usize| #[trigger] p2.contains_key(k) implies node_ok(p2, g2, f2, rk2, bound, r2, k) by {
        if k != key {
            assert(node_ok(p, g, first, rank, bound, roots, k));
            assert(p.contains_key(k));
            assert(p[k] != key);
            assert(g[k] != key);
        }
    }
    assert(r2.dom() =~= Set::new(|k: usize| p2.contains_key(k) && p2[k] == k));
    assert(g2.dom() =~= p2.dom());
    assert(f2.dom() =~= p2.dom());
    assert(rk2.dom() =~= p2.dom());
}

/// The groups after the group with root `r2` joins the one with root `r1`.
pub open spec fn joined_groups(g: Map<usize, usize>, r1: usize, r2: usize) -> Map<usize, usize> {
    Map::new(|k: usize| g.dom().contains(k), |k: usize| if g[k] == r2 { r1 } else { g[k] })
}

/// Hanging root `r2` under root `r1` keeps the forest well formed, with the
/// groups joined and the box of `r1` grown to hold both.
pub proof fn lemma_forest_join(
    p: Map<usize, usize>,
    g: Map<usize, usize>,
    first: Map<usize, Rect>,
    rank: Map<usize, nat>,
    bound: nat,
    roots: Map<usize, Rect>,
    r1: usize,
    r2: usize,
)
    requires
        forest_ok(p, g, first, rank, bound, roots),
        roots.contains_key(r1),
        roots.contains_key(r2),
        r1 != r2,
    ensures
        ({
            let nr = if rank[r1] > rank[r2] { rank[r1] } else { rank[r2] + 1 };
            forest_ok(
                p.insert(r2, r1),
                joined_groups(g, r1, r2),
                first,
                rank.insert(r1, nr),
                if bound >= nr { bound } else { nr },
                roots.remove(r2).insert(r1, rect_union(roots[r1], roots[r2])),
            )
        }),
{
    let nr = if rank[r1] > rank[r2] { rank[r1] } else { rank[r2] + 1 };
    let p2 = p.insert(r2, r1);
    let g2 = joined_groups(g, r1, r2);
    let rk2 = rank.insert(r1, nr);
    let b2 = if bound >= nr { bound } else { nr };
    let roots2 = roots.remove(r2).insert(r1, rect_union(roots[r1], roots[r2]));
    lemma_forest_facts(p, g, first, rank, bound, roots);
    lemma_root_is_key(p, g, first, rank, bound, roots, r1);
    lemma_root_is_key(p, g, first, rank, bound, roots, r2);
    lemma_join_nodes(p, g, first, rank, bound, roots, r1, r2);
    assert forall|r: usize| #[trigger] roots2.contains_key(r) implies box_attained(p2, g2, first, roots2[r], r) by {
        if r == r1 {
            lemma_join_box(p, g, first, roots, r1, r2);
        } else {
            lemma_join_other_box(p, g, first, roots, r1, r2, r);
        }
    }
    assert(roots2.dom() =~= Set::new(|k: usize| p2.contains_key(k) && p2[k] == k));
    assert(g2.dom() =~= p2.dom());
    assert(rk2.dom() =~= p2.dom());
    assert(first.dom() =~= p2.dom());
    lemma_forest_intro(p2, g2, first, rk2, b2, roots2);
}

/// `forest_ok` from its parts.
proof fn lemma_forest_intro(
    p: Map<usize, usize>,
    g: Map<usize, usize>,
    first: Map<usize, Rect>,
    rank: Map<usize, nat>,
    bound: nat,
    roots: Map<usize, Rect>,
)
    requires
        g.dom() == p.dom(),
        first.dom() == p.dom(),
        rank.dom() == p.dom(),
        roots.dom() == Set::new(|k: usize| p.contains_key(k) && p[k] == k),
        forall|k: usize| #[trigger] p.contains_key(k) ==> node_ok(p, g, first, rank, bound, roots, k),
        forall|r: usize| #[trigger] roots.contains_key(r) ==> box_attained(p, g, first, roots[r], r),
    ensures
        forest_ok(p, g, first, rank, bound, roots),
{
    reveal(forest_ok);
}

/// The parts of `forest_ok` other than the per-range conditions.
proof fn lemma_forest_facts(
    p: Map<usize, usize>,
    g: Map<usize, usize>,
    first: Map<usize, Rect>,
    rank: Map<usize, nat>,
    bound: nat,
    roots: Map<usize, Rect>,
)
    requires
        forest_ok(p, g, first, rank, bound, roots),
    ensures
        g.dom() == p.dom(),
        first.dom() == p.dom(),
        rank.dom() == p.dom(),
        roots.dom() == Set::new(|k: usize| p.contains_key(k) && p[k] == k),
        forall|r: usize| #[trigger] roots.contains_key(r) ==> box_attained(p, g, first, roots[r], r),
{
    reveal(forest_ok);
}

/// A root of the forest is a range that is its own parent and its own
/// group's root.
proof fn lemma_root_is_key(
    p: Map<usize, usize>,
    g: Map<usize, usize>,
    first: Map<usize, Rect>,
    rank: Map<usize, nat>,
    bound: nat,
    roots: Map<usize, Rect>,
    r: usize,
)
    requires
        forest_ok(p, g, first, rank, bound, roots),
        roots.contains_key(r),
    ensures
        p.contains_key(r),
        p[r] == r,
        g[r] == r,
        rank.contains_key(r),
{
    reveal(forest_ok);
    assert(node_ok(p, g, first, rank, bound, roots, r));
}

proof fn lemma_join_nodes(
    p: Map<usize, usize>,
    g: Map<usize, usize>,
    first: Map<usize, Rect>,
    rank: Map<usize, nat>,
    bound: nat,
    roots: Map<usize, Rect>,
    r1: usize,
    r2: usize,
)
    requires
        forest_ok(p, g, first, rank, bound, roots),
        roots.contains_key(r1),
        roots.contains_key(r2),
        r1 != r2,
    ensures
        ({
            let nr = if rank[r1] > rank[r2] { rank[r1] } else { rank[r2] + 1 };
            forall|k: usize| #[trigger] p.insert(r2, r1).contains_key(k) ==> node_ok(
                p.insert(r2, r1),
                joined_groups(g, r1, r2),
                first,
                rank.insert(r1, nr),
                if bound >= nr { bound } else { nr },
                roots.remove(r2).insert(r1, rect_union(roots[r1], roots[r2])),
                k,
            )
        }),
{
    reveal(forest_ok);
    let nr = if rank[r1] > rank[r2] { rank[r1] } else { rank[r2] + 1 };
    let p2 = p.insert(r2, r1);
    let g2 = joined_groups(g, r1, r2);
    let rk2 = rank.insert(r1, nr);
    let b2 = if bound >= nr { bound } else { nr };
    let roots2 = roots.remove(r2).insert(r1, rect_union(roots[r1], roots[r2]));
    assert(p.contains_key(r1) && p[r1] == r1);
    assert(p.contains_key(r2) && p[r2] == r2);
    assert(node_ok(p, g, first, rank, bound, roots, r1));
    assert(node_ok(p, g, first, rank, bound, roots, r2));
    assert forall|k: usize| #[trigger] p2.contains_key(k) implies node_ok(p2, g2, first, rk2, b2, roots2, k) by {
        assert(p.contains_key(k));
        assert(node_ok(p, g, first, rank, bound, roots, k));
        if k != r2 {
            assert(p2[k] == p[k]);
        }
    }
}

proof fn lemma_join_box(
    p: Map<usize, usize>,
    g: Map<usize, usize>,
    first: Map<usize, Rect>,
    roots: Map<usize, Rect>,
    r1: usize,
    r2: usize,
)
    requires
        g.dom() == p.dom(),
        box_attained(p, g, first, roots[r1], r1),
        box_attained(p, g, first, roots[r2], r2),
        r1 != r2,
    ensures
        box_attained(
            p.insert(r2, r1),
            joined_groups(g, r1, r2),
            first,
            rect_union(roots[r1], roots[r2]),
            r1,
        ),
{
    let g2 = joined_groups(g, r1, r2);
    let a = roots[r1];
    let b = roots[r2];
    if a.0 <= b.0 {
        let k = choose|k: usize| #![trigger g[k]] p.contains_key(k) && g[k] == r1 && first[k].0 == a.0;
        assert(g2[k] == r1);
    } else {
        let k = choose|k: usize| #![trigger g[k]] p.contains_key(k) && g[k] == r2 && first[k].0 == b.0;
        assert(g2[k] == r1);
    }
    if a.1 <= b.1 {
        let k = choose|k: usize| #![trigger g[k]] p.contains_key(k) && g[k] == r1 && first[k].1 == a.1;
        assert(g2[k] == r1);
    } else {
        let k = choose|k: usize| #![trigger g[k]] p.contains_key(k) && g[k] == r2 && first[k].1 == b.1;
        assert(g2[k] == r1);
    }
    if a.2 >= b.2 {
        let k = choose|k: usize| #![trigger g[k]] p.contains_key(k) && g[k] == r1 && first[k].2 == a.2;
        assert(g2[k] == r1);
    } else {
        let k = choose|k: usize| #![trigger g[k]] p.contains_key(k) && g[k] == r2 && first[k].2 == b.2;
        assert(g2[k] == r1);
    }
    if a.3 >= b.3 {
        let k = choose|k: usize| #![trigger g[k]] p.contains_key(k) && g[k] == r1 && first[k].3 == a.3;
        assert(g2[k] == r1);
    } else {
        let k = choose|k: usize| #![trigger g[k]] p.contains_key(k) && g[k] == r2 && first[k].3 == b.3;
        assert(g2[k] == r1);
    }
}

proof fn lemma_join_other_box(
    p: Map<usize, usize>,
    g: Map<usize, usize>,
    first: Map<usize, Rect>,
    roots: Map<usize, Rect>,
    r1: usize,
    r2: usize,
    r: usize,
)
    requires
        g.dom() == p.dom(),
        box_attained(p, g, first, roots[r], r),
        r != r2,
        r != r1,
    ensures
        box_attained(p.insert(r2, r1), joined_groups(g, r1, r2), first, roots[r], r),
{
    let g2 = joined_groups(g, r1, r2);
    let k0 = choose|k: usize| #![trigger g[k]] p.contains_key(k) && g[k] == r && first[k].0 == roots[r].0;
    assert(g2[k0] == r);
    let k1 = choose|k: usize| #![trigger g[k]] p.contains_key(k) && g[k] == r && first[k].1 == roots[r].1;
    assert(g2[k1] == r);
    let k2 = choose|k: usize| #![trigger g[k]] p.contains_key(k) && g[k] == r && first[k].2 == roots[r].2;
    assert(g2[k2] == r);
    let k3 = choose|k: usize| #![trigger g[k]] p.contains_key(k) && g[k] == r && first[k].3 == roots[r].3;
    assert(g2[k3] == r);
}

/// Appending a key that is not yet in the set of `order` keeps `order`
/// free of duplicates and its set one larger.
proof fn lemma_push_new_key(order: Seq<usize>, keys: Set<usize>, key: usize)
    requires
        order.no_duplicates(),
        order.to_set() == keys,
        !keys.contains(key),
    ensures
        order.push(key).no_duplicates(),
        order.push(key).to_set() == keys.insert(key),
{
    let o2 = order.push(key);
    assert(!order.contains(key)) by {
        if order.contains(key) {
            assert(order.to_set().contains(key));
        }
    }
    assert forall|k: usize| o2.to_set().contains(k) <==> keys.insert(key).contains(k) by {
        if k == key {
            assert(o2[o2.len() - 1] == key);
        } else if order.contains(k) {
            let i = choose|i: int| 0 <= i < order.len() && order[i] == k;
            assert(o2[i] == k);
        } else if o2.contains(k) {
            let i = choose|i: int| 0 <= i < o2.len() && o2[i] == k;
            assert(order[i] == k);
        }
    }
    assert(o2.to_set() =~= keys.insert(key));
}

/// Groups of row ranges, kept as a forest: each range is named by the cell
/// where it starts (`y * width + x1`), points at a parent range, and each
/// root holds the bounding box of its group.
pub struct Data {
    width: usize,
    parents: HashMap<usize, usize>,
    roots: HashMap<usize, Rect>,
    /// The ranges in the order they were added.
    order: Vec<usize>,
    /// The root that each range's chain of parents ends at.
    group: Ghost<Map<usize, usize>>,
    /// The box each range was added with.
    first: Ghost<Map<usize, Rect>>,
    /// Strictly grows from a range to its parent.
    rank: Ghost<Map<usize, nat>>,
    bound: Ghost<nat>,
}

impl Data {
    pub closed spec fn width_spec(&self) -> usize {
        self.width
    }

    /// The ranges added so far.
    pub closed spec fn keys(&self) -> Set<usize> {
        self.parents@.dom()
    }

    /// The root of the group of each range.
    pub closed spec fn group_of(&self) -> Map<usize, usize> {
        self.group@
    }

    /// The box each range was added with.
    pub closed spec fn first_box(&self) -> Map<usize, Rect> {
        self.first@
    }

    /// The parent of each range; a root is its own parent.
    pub closed spec fn parent_of(&self) -> Map<usize, usize> {
        self.parents@
    }

    /// The box of each group, by its root.
    pub closed spec fn boxes(&self) -> Map<usize, Rect> {
        self.roots@
    }

    pub closed spec fn wf(&self) -> bool {
        &&& forest_ok(self.parents@, self.group@, self.first@, self.rank@, self.bound@, self.roots@)
        &&& self.order@.no_duplicates()
        &&& self.order@.to_set() =~= self.parents@.dom()
    }

    /// No ranges yet.
    pub fn new(width: usize) -> (r: Self)
        ensures
            r.wf(),
            r.width_spec() == width,
            r.keys() == Set::<usize>::empty(),
    {
        broadcast use {
            vstd::std_specs::hash::axiom_usize_obeys_hash_table_key_model,
            vstd::std_specs::hash::axiom_random_state_builds_valid_hashers,
            vstd::std_specs::hash::axiom_maps_deref_key_to_value,
            vstd::std_specs::hash::axiom_contains_deref_key,
            vstd::std_specs::hash::axiom_deref_key_removed,
        };
        let r = Data {
            width,
            parents: HashMap::new(),
            roots: HashMap::new(),
            order: Vec::new(),
            group: Ghost(Map::empty()),
            first: Ghost(Map::empty()),
            rank: Ghost(Map::empty()),
            bound: Ghost(0),
        };
        proof {
            assert(r.order@.to_set() =~= Set::<usize>::empty());
            assert(r.roots@.dom() =~= Set::new(|k: usize| r.parents@.contains_key(k) && r.parents@[k] == k));
            reveal(forest_ok);
        }
        r
    }
}


impl Data {
    /// Records the range from `x1` to `x2` of row `y` as a group of its own.
    pub fn add_root(&mut self, y: usize, x1: usize, x2: usize)
        requires
            old(self).wf(),
            y * old(self).width_spec() + x1 <= usize::MAX,
            !old(self).keys().contains((y * old(self).width_spec() + x1) as usize),
        ensures
            final(self).wf(),
            final(self).width_spec() == old(self).width_spec(),
            ({
                let key = (y * old(self).width_spec() + x1) as usize;
                &&& final(self).keys() == old(self).keys().insert(key)
                &&& final(self).parent_of() == old(self).parent_of().insert(key, key)
                &&& final(self).group_of() == old(self).group_of().insert(key, key)
                &&& final(self).first_box() == old(self).first_box().insert(key, (x1, y, x2, y))
                &&& final(self).boxes() == old(self).boxes().insert(key, (x1, y, x2, y))
            }),
    {
        broadcast use {
            vstd::std_specs::hash::axiom_usize_obeys_hash_table_key_model,
            vstd::std_specs::hash::axiom_random_state_builds_valid_hashers,
            vstd::std_specs::hash::axiom_maps_deref_key_to_value,
            vstd::std_specs::hash::axiom_contains_deref_key,
            vstd::std_specs::hash::axiom_deref_key_removed,
        };
        let key = y * self.width + x1;
        let ghost old_self = *self;
        self.roots.insert(key, (x1, y, x2, y));
        self.parents.insert(key, key);
        self.order.push(key);
        proof {
            lemma_forest_add(
                old_self.parents@,
                old_self.group@,
                old_self.first@,
                old_self.rank@,
                old_self.bound@,
                old_self.roots@,
                key,
                (x1, y, x2, y),
            );
            self.group@ = self.group@.insert(key, key);
            self.first@ = self.first@.insert(key, (x1, y, x2, y));
            self.rank@ = self.rank@.insert(key, 0);
            lemma_push_new_key(old_self.order@, old_self.parents@.dom(), key);
        }
    }
}


impl Data {
    /// The root of the group of the range that starts at `(x1, y)`.
    pub fn get_root(&mut self, y: usize, x1: usize) -> (r: usize)
        requires
            old(self).wf(),
            y * old(self).width_spec() + x1 <= usize::MAX,
            old(self).keys().contains((y * old(self).width_spec() + x1) as usize),
        ensures
            *final(self) == *old(self),
            r == old(self).group_of()[(y * old(self).width_spec() + x1) as usize],
            old(self).boxes().contains_key(r),
    {
        broadcast use {
            vstd::std_specs::hash::axiom_usize_obeys_hash_table_key_model,
            vstd::std_specs::hash::axiom_random_state_builds_valid_hashers,
            vstd::std_specs::hash::axiom_maps_deref_key_to_value,
            vstd::std_specs::hash::axiom_contains_deref_key,
            vstd::std_specs::hash::axiom_deref_key_removed,
        };
        let start = y * self.width + x1;
        let mut key = start;
        let mut parent = *self.parents.get(&key).unwrap();
        while parent != key
            invariant
                self.wf(),
                self.parents@.contains_key(key),
                parent == self.parents@[key],
                self.group@[key] == self.group@[start],
            decreases self.bound@ - self.rank@[key],
        {
            proof {
                reveal(forest_ok);
                assert(node_ok(self.parents@, self.group@, self.first@, self.rank@, self.bound@, self.roots@, key));
            }
            key = parent;
            parent = *self.parents.get(&key).unwrap();
        }
        proof {
            reveal(forest_ok);
            assert(node_ok(self.parents@, self.group@, self.first@, self.rank@, self.bound@, self.roots@, key));
            assert(node_ok(self.parents@, self.group@, self.first@, self.rank@, self.bound@, self.roots@, start));
        }
        parent
    }

    /// Joins the group with root `root2` into the one with root `root1`
    /// and returns `root1`.
    pub fn merge(&mut self, root1: usize, root2: usize) -> (r: usize)
        requires
            old(self).wf(),
            old(self).boxes().contains_key(root1),
            old(self).boxes().contains_key(root2),
        ensures
            final(self).wf(),
            r == root1,
            final(self).width_spec() == old(self).width_spec(),
            final(self).keys() == old(self).keys(),
            final(self).first_box() == old(self).first_box(),
            final(self).group_of() == joined_groups(old(self).group_of(), root1, root2),
            root1 == root2 ==> final(self).boxes() == old(self).boxes(),
            root1 == root2 ==> final(self).parent_of() == old(self).parent_of(),
            root1 != root2 ==> final(self).parent_of() == old(self).parent_of().insert(root2, root1),
            root1 != root2 ==> final(self).boxes() == old(self).boxes().remove(root2).insert(
                root1,
                rect_union(old(self).boxes()[root1], old(self).boxes()[root2]),
            ),
    {
        broadcast use {
            vstd::std_specs::hash::axiom_usize_obeys_hash_table_key_model,
            vstd::std_specs::hash::axiom_random_state_builds_valid_hashers,
            vstd::std_specs::hash::axiom_maps_deref_key_to_value,
            vstd::std_specs::hash::axiom_contains_deref_key,
            vstd::std_specs::hash::axiom_deref_key_removed,
        };
        if root1 == root2 {
            proof {
                assert(joined_groups(self.group@, root1, root2) =~= self.group@) by {
                    assert forall|k: usize| #[trigger] self.group@.contains_key(k) implies self.group@[k] != root2 || root1 == root2 by {}
                }
            }
            return root1;
        }
        let ghost old_self = *self;
        let mut ra = *self.roots.get(&root1).unwrap();
        let rb = *self.roots.get(&root2).unwrap();
        if rb.1 < ra.1 {
            ra.1 = rb.1;
        }
        if rb.0 < ra.0 {
            ra.0 = rb.0;
        }
        if rb.3 > ra.3 {
            ra.3 = rb.3;
        }
        if rb.2 > ra.2 {
            ra.2 = rb.2;
        }
        self.roots.remove(&root2);
        self.roots.insert(root1, ra);
        self.parents.insert(root2, root1);
        proof {
            lemma_forest_join(
                old_self.parents@,
                old_self.group@,
                old_self.first@,
                old_self.rank@,
                old_self.bound@,
                old_self.roots@,
                root1,
                root2,
            );
            let nr = if self.rank@[root1] > self.rank@[root2] { self.rank@[root1] } else { self.rank@[root2] + 1 };
            self.group@ = joined_groups(old_self.group@, root1, root2);
            self.rank@ = self.rank@.insert(root1, nr);
            if self.bound@ < nr {
                self.bound@ = nr;
            }
            assert(ra == rect_union(old_self.roots@[root1], old_self.roots@[root2]));
            lemma_root_is_key(
                old_self.parents@,
                old_self.group@,
                old_self.first@,
                old_self.rank@,
                old_self.bound@,
                old_self.roots@,
                root2,
            );
            assert(self.parents@.dom() =~= old_self.parents@.dom());
        }
        root1
    }
}


/// The entries of `m` at the keys of `order` that it has, in that order.
pub open spec fn listed(order: Seq<usize>, m: Map<usize, Rect>) -> Seq<(usize, Rect)>
    decreases order.len(),
{
    if order.len() == 0 {
        Seq::empty()
    } else {
        let prev = listed(order.drop_last(), m);
        let k = order.last();
        if m.contains_key(k) {
            prev.push((k, m[k]))
        } else {
            prev
        }
    }
}

proof fn lemma_listed(order: Seq<usize>, m: Map<usize, Rect>)
    requires
        order.no_duplicates(),
    ensures
        forall|j: int| 0 <= j < listed(order, m).len() ==> {
            &&& m.contains_key(#[trigger] listed(order, m)[j].0)
            &&& listed(order, m)[j].1 == m[listed(order, m)[j].0]
            &&& order.contains(listed(order, m)[j].0)
        },
        forall|j1: int, j2: int| 0 <= j1 < j2 < listed(order, m).len() ==> #[trigger] listed(order, m)[j1].0
            != #[trigger] listed(order, m)[j2].0,
        forall|k: usize| #[trigger] order.contains(k) && m.contains_key(k) ==> exists|j: int|
            0 <= j < listed(order, m).len() && #[trigger] listed(order, m)[j].0 == k,
    decreases order.len(),
{
    if order.len() > 0 {
        let prev = order.drop_last();
        let l = listed(order, m);
        let lp = listed(prev, m);
        assert(prev.no_duplicates());
        lemma_listed(prev, m);
        let k = order.last();
        assert(!prev.contains(k)) by {
            if prev.contains(k) {
                let i = choose|i: int| 0 <= i < prev.len() && prev[i] == k;
                assert(order[i] == order[order.len() - 1]);
            }
        }
        assert forall|j: int| 0 <= j < l.len() implies {
            &&& m.contains_key(#[trigger] l[j].0)
            &&& l[j].1 == m[l[j].0]
            &&& order.contains(l[j].0)
        } by {
            if j < lp.len() {
                assert(l[j] == lp[j]);
                let i = choose|i: int| 0 <= i < prev.len() && prev[i] == lp[j].0;
                assert(order[i] == l[j].0);
            } else {
                assert(order[order.len() - 1] == l[j].0);
            }
        }
        assert forall|j1: int, j2: int| 0 <= j1 < j2 < l.len() implies #[trigger] l[j1].0 != #[trigger] l[j2].0 by {
            assert(l[j1] == lp[j1]);
            if j2 < lp.len() {
                assert(l[j2] == lp[j2]);
            } else {
                assert(prev.contains(lp[j1].0));
            }
        }
        assert forall|x: usize| order.contains(x) && m.contains_key(x) implies exists|j: int|
            0 <= j < l.len() && #[trigger] l[j].0 == x by {
            if x == k {
                assert(l[l.len() - 1].0 == x);
            } else {
                let i = choose|i: int| 0 <= i < order.len() && order[i] == x;
                assert(prev[i] == x);
                assert(prev.contains(x));
                let j = choose|j: int| 0 <= j < lp.len() && #[trigger] lp[j].0 == x;
                assert(l[j] == lp[j]);
            }
        }
    }
}

impl Data {
    /// Every group as its root and box, each once, roots in the order
    /// their ranges were added.
    pub fn list_boxes(&self) -> (r: Vec<(usize, Rect)>)
        requires
            self.wf(),
        ensures
            forall|j: int| 0 <= j < r.len() ==> #[trigger] self.boxes().contains_key(r[j].0)
                && r[j].1 == self.boxes()[r[j].0],
            forall|j1: int, j2: int| 0 <= j1 < j2 < r.len() ==> #[trigger] r[j1].0 != #[trigger] r[j2].0,
            forall|k: usize| #[trigger] self.boxes().contains_key(k) ==> exists|j: int| 0 <= j < r.len() && r[j].0 == k,
    {
        broadcast use {
            vstd::std_specs::hash::axiom_usize_obeys_hash_table_key_model,
            vstd::std_specs::hash::axiom_random_state_builds_valid_hashers,
            vstd::std_specs::hash::axiom_maps_deref_key_to_value,
            vstd::std_specs::hash::axiom_contains_deref_key,
        };
        let mut r: Vec<(usize, Rect)> = Vec::new();
        let mut idx: usize = 0;
        while idx < self.order.len()
            invariant
                idx <= self.order@.len(),
                r@ == listed(self.order@.take(idx as int), self.roots@),
            decreases self.order@.len() - idx,
        {
            let k = self.order[idx];
            proof {
                assert(self.order@.take(idx + 1).drop_last() =~= self.order@.take(idx as int));
            }
            match self.roots.get(&k) {
                Some(b) => {
                    r.push((k, *b));
                },
                None => {},
            }
            idx = idx + 1;
        }
        proof {
            assert(self.order@.take(idx as int) =~= self.order@);
            lemma_listed(self.order@, self.roots@);
            lemma_forest_facts(self.parents@, self.group@, self.first@, self.rank@, self.bound@, self.roots@);
            assert forall|k: usize| #[trigger] self.roots@.contains_key(k) implies exists|j: int| 0 <= j < r.len() && r@[j].0 == k by {
                assert(self.parents@.contains_key(k));
                assert(self.order@.to_set().contains(k));
            }
        }
        r
    }
}


/// The columns of the ones in a row written as digits one character apart:
/// the digit of column `x` is byte `2 * x`.
pub open spec fn ones(line: Seq<u8>) -> Seq<usize>
    decreases line.len(),
{
    if line.len() == 0 {
        Seq::empty()
    } else {
        let prev = ones(line.drop_last());
        let i = line.len() - 1;
        if i % 2 == 0 && line[i] == 49u8 {
            prev.push((i / 2) as usize)
        } else {
            prev
        }
    }
}

/// Increasing columns split into maximal runs in which neighbours are at
/// most `tol` apart, each run as its first and last column.
pub open spec fn runs(cols: Seq<usize>, tol: int) -> Seq<(usize, usize)>
    decreases cols.len(),
{
    if cols.len() == 0 {
        Seq::empty()
    } else {
        let g = runs(cols.drop_last(), tol);
        let x = cols.last();
        if g.len() == 0 {
            seq![(x, x)]
        } else if x <= g.last().1 + tol {
            g.update(g.len() - 1, (g.last().0, x))
        } else {
            g.push((x, x))
        }
    }
}

/// No column is `usize::MAX`: it stands for "no run open".
const NO_COLUMN: usize = usize::MAX;

/// The runs of ones of one row, with neighbours in a run at most
/// `tolerance` columns apart.
pub fn row_ranges(line: &[u8], tolerance: usize) -> (r: Vec<(usize, usize)>)
    requires
        line@.len() / 2 + tolerance < usize::MAX,
    ensures
        r@ == runs(ones(line@), tolerance as int),
{
    let mut cur: Vec<(usize, usize)> = Vec::new();
    let mut start: usize = NO_COLUMN;
    let mut last: usize = NO_COLUMN;
    let mut i: usize = 0;
    while i < line.len()
        invariant
            i <= line@.len(),
            line@.len() / 2 + tolerance < usize::MAX,
            ({
                let g = runs(ones(line@.take(i as int)), tolerance as int);
                &&& (last == NO_COLUMN <==> g.len() == 0)
                &&& (g.len() == 0 ==> cur@.len() == 0)
                &&& (g.len() > 0 ==> cur@ == g.drop_last() && g.last() == (start, last))
            }),
            last != NO_COLUMN ==> last <= line@.len() / 2,
        decreases line@.len() - i,
    {
        let ghost t = line@.take(i as int);
        let ghost t1 = line@.take(i + 1);
        proof {
            assert(t1.drop_last() =~= t);
            assert(t1[i as int] == line@[i as int]);
        }
        if i % 2 == 0 {
            let x = i / 2;
            if line[i] == 49u8 {
                if last == NO_COLUMN {
                    start = x;
                    last = x;
                } else if x <= last + tolerance {
                    last = x;
                } else {
                    cur.push((start, last));
                    start = x;
                    last = x;
                }
            }
        }
        proof {
            let g0 = runs(ones(t), tolerance as int);
            let g1 = runs(ones(t1), tolerance as int);
            if i % 2 == 0 && line@[i as int] == 49u8 {
                assert(ones(t1) == ones(t).push((i / 2) as usize));
                assert(ones(t1).drop_last() =~= ones(t));
                if g0.len() > 0 {
                    assert(cur@ =~= g1.drop_last());
                }
            } else {
                assert(ones(t1) == ones(t));
            }
        }
        i = i + 1;
    }
    proof {
        assert(line@.take(i as int) =~= line@);
    }
    if last != NO_COLUMN {
        cur.push((start, last));
        proof {
            let g = runs(ones(line@), tolerance as int);
            assert(cur@ =~= g);
        }
    }
    cur
}


/// The runs of each row, as sequences.
pub open spec fn rows_view(rs: Seq<Vec<(usize, usize)>>) -> Seq<Seq<(usize, usize)>> {
    rs.map_values(|v: Vec<(usize, usize)>| v@)
}

/// The name of the range of row `y` that starts at column `x`.
pub open spec fn key_of(w: int, y: int, x: int) -> usize {
    (y * w + x) as usize
}

/// The runs of a row are ordered, apart, and inside the row's `w` columns.
pub open spec fn row_ok(r: Seq<(usize, usize)>, w: int) -> bool {
    &&& forall|j: int| 0 <= j < r.len() ==> (#[trigger] r[j]).0 <= r[j].1 && r[j].1 < w
    &&& forall|j: int, k: int| 0 <= j < k < r.len() ==> (#[trigger] r[j]).1 < (#[trigger] r[k]).0
}

/// Range `b`, `dy` rows below range `a`, lies within the reach of `a`:
/// `a` widened by `tol - dy` columns each way, clipped to the `w` columns.
pub open spec fn close(a: (usize, usize), b: (usize, usize), xoff: int, w: int) -> bool {
    let xmin = if a.0 > xoff { a.0 - xoff } else { 0 };
    let xmax = if a.1 + xoff < w { a.1 + xoff } else { w - 1 };
    b.1 >= xmin && b.0 <= xmax
}

/// The ranges `j1` of row `y1` and `j2` of row `y2` are in one group.
pub open spec fn linked(g: Map<usize, usize>, rs: Seq<Seq<(usize, usize)>>, w: int, y1: int, j1: int, y2: int, j2: int) -> bool {
    g[key_of(w, y1, rs[y1][j1].0 as int)] == g[key_of(w, y2, rs[y2][j2].0 as int)]
}

/// A pair of ranges: `j1` of row `y1` and `j2` of row `y2`, at most `tol`
/// rows below it, with `j2` within the reach of `j1`.
pub open spec fn close_pair(rs: Seq<Seq<(usize, usize)>>, tol: int, w: int, y1: int, j1: int, y2: int, j2: int) -> bool {
    &&& 0 <= y1 < y2 < rs.len()
    &&& y2 - y1 <= tol
    &&& 0 <= j1 < rs[y1].len()
    &&& 0 <= j2 < rs[y2].len()
    &&& close(rs[y1][j1], rs[y2][j2], tol - (y2 - y1), w)
}

/// Every close pair that comes before step `(dy, y, jb, jt)` of the scan
/// (row distance, upper row, upper range, lower range) is in one group.
pub open spec fn linked_before(
    g: Map<usize, usize>,
    rs: Seq<Seq<(usize, usize)>>,
    tol: int,
    w: int,
    dy: int,
    y: int,
    jb: int,
    jt: int,
) -> bool {
    forall|y1: int, j1: int, y2: int, j2: int|
        #[trigger] close_pair(rs, tol, w, y1, j1, y2, j2) && (y2 - y1 < dy || (y2 - y1 == dy && (y1 < y || (y1
            == y && (j1 < jb || (j1 == jb && j2 < jt)))))) ==> linked(g, rs, w, y1, j1, y2, j2)
}

/// Groups `g2` join whatever groups `g1` joined.
pub open spec fn coarser(g2: Map<usize, usize>, g1: Map<usize, usize>) -> bool {
    &&& g2.dom() == g1.dom()
    &&& forall|k1: usize, k2: usize| g1.contains_key(k1) && g1.contains_key(k2) && #[trigger] g1[k1] == #[trigger] g1[k2]
        ==> g2[k1] == g2[k2]
}

/// Every range of every row is named in `keys`.
pub open spec fn ranges_known(keys: Set<usize>, rs: Seq<Seq<(usize, usize)>>, w: int) -> bool {
    forall|y: int, j: int| 0 <= y < rs.len() && 0 <= j < rs[y].len() ==> keys.contains(
        #[trigger] key_of(w, y, rs[y][j].0 as int),
    )
}

proof fn lemma_joined_coarser(g: Map<usize, usize>, r1: usize, r2: usize)
    ensures
        coarser(joined_groups(g, r1, r2), g),
{
    assert(joined_groups(g, r1, r2).dom() =~= g.dom());
}

proof fn lemma_coarser_trans(g3: Map<usize, usize>, g2: Map<usize, usize>, g1: Map<usize, usize>)
    requires
        coarser(g3, g2),
        coarser(g2, g1),
    ensures
        coarser(g3, g1),
{
    assert forall|k1: usize, k2: usize| g1.contains_key(k1) && g1.contains_key(k2) && #[trigger] g1[k1] == #[trigger] g1[k2]
        implies g3[k1] == g3[k2] by {
        assert(g2[k1] == g2[k2]);
    }
}

proof fn lemma_linked_coarser(
    g1: Map<usize, usize>,
    g2: Map<usize, usize>,
    rs: Seq<Seq<(usize, usize)>>,
    tol: int,
    w: int,
    dy: int,
    y: int,
    jb: int,
    jt: int,
)
    requires
        linked_before(g1, rs, tol, w, dy, y, jb, jt),
        coarser(g2, g1),
        ranges_known(g1.dom(), rs, w),
    ensures
        linked_before(g2, rs, tol, w, dy, y, jb, jt),
{
    assert forall|y1: int, j1: int, y2: int, j2: int|
        #[trigger] close_pair(rs, tol, w, y1, j1, y2, j2) && (y2 - y1 < dy || (y2 - y1 == dy && (y1 < y || (y1
            == y && (j1 < jb || (j1 == jb && j2 < jt)))))) implies linked(g2, rs, w, y1, j1, y2, j2) by {
        let k1 = key_of(w, y1, rs[y1][j1].0 as int);
        let k2 = key_of(w, y2, rs[y2][j2].0 as int);
        assert(g1.contains_key(k1));
        assert(g1.contains_key(k2));
        assert(g1[k1] == g1[k2]);
    }
}

/// `y * w + x` stays below `n * w` for a cell inside an `n` by `w` grid.
proof fn lemma_key_bound(y: int, x: int, w: int, n: int)
    requires
        0 <= y < n,
        0 <= x < w,
    ensures
        y * w + x < n * w,
        0 <= y * w + x,
{
    assert(y * w + x < n * w) by (nonlinear_arith)
        requires
            0 <= y < n,
            0 <= x < w,
    ;
    assert(0 <= y * w) by (nonlinear_arith)
        requires
            0 <= y,
            0 <= w,
    ;
}


impl Data {
    /// Joins the group of every range with the groups of the ranges within
    /// its reach in the `tolerance` rows below it: `dy` rows down, the reach
    /// is the range widened by `tolerance - dy` columns each way.
    pub fn link_rows(&mut self, ranges: &Vec<Vec<(usize, usize)>>, tolerance: usize)
        requires
            old(self).wf(),
            old(self).width_spec() + tolerance < usize::MAX,
            ranges@.len() * old(self).width_spec() <= usize::MAX,
            forall|y: int| 0 <= y < ranges@.len() ==> row_ok(#[trigger] rows_view(ranges@)[y], old(self).width_spec() as int),
            ranges_known(old(self).keys(), rows_view(ranges@), old(self).width_spec() as int),
            groups_connected(old(self).group_of(), rows_view(ranges@), tolerance as int, old(self).width_spec() as int),
        ensures
            final(self).wf(),
            final(self).width_spec() == old(self).width_spec(),
            final(self).keys() == old(self).keys(),
            final(self).first_box() == old(self).first_box(),
            coarser(final(self).group_of(), old(self).group_of()),
            groups_connected(final(self).group_of(), rows_view(ranges@), tolerance as int, old(self).width_spec() as int),
            forall|y1: int, j1: int, y2: int, j2: int|
                #[trigger] close_pair(rows_view(ranges@), tolerance as int, old(self).width_spec() as int, y1, j1, y2, j2)
                    ==> linked(final(self).group_of(), rows_view(ranges@), old(self).width_spec() as int, y1, j1, y2, j2),
    {
        let ghost g0 = self.group@;
        let ghost keys0 = self.parents@.dom();
        let ghost first0 = self.first@;
        let ghost rs = rows_view(ranges@);
        let ghost tol = tolerance as int;
        let ghost w = self.width as int;
        proof {
            lemma_forest_facts(self.parents@, self.group@, self.first@, self.rank@, self.bound@, self.roots@);
        }
        let width = self.width;
        let n = ranges.len();
        let mut yoff: usize = 1;
        while yoff <= tolerance
            invariant
                self.wf(),
                self.width == width,
                w == width,
                tol == tolerance,
                rs == rows_view(ranges@),
                n == rs.len(),
                self.parents@.dom() == keys0,
                self.first@ == first0,
                g0.dom() == keys0,
                coarser(self.group@, g0),
                1 <= yoff <= tolerance + 1,
                width + tolerance < usize::MAX,
                n * width <= usize::MAX,
                forall|y: int| 0 <= y < n ==> row_ok(#[trigger] rs[y], w),
                ranges_known(keys0, rs, w),
                linked_before(self.group@, rs, tol, w, yoff as int, 0, 0, 0),
                groups_connected(self.group@, rs, tol, w),
            decreases tolerance + 1 - yoff,
        {
            if n > yoff {
                let mut rowi: usize = 0;
                while rowi < n - yoff
                    invariant
                        self.wf(),
                        self.width == width,
                        w == width,
                        tol == tolerance,
                        rs == rows_view(ranges@),
                        n == rs.len(),
                        self.parents@.dom() == keys0,
                        self.first@ == first0,
                        g0.dom() == keys0,
                        coarser(self.group@, g0),
                        1 <= yoff <= tolerance,
                        yoff < n,
                        rowi <= n - yoff,
                        width + tolerance < usize::MAX,
                        n * width <= usize::MAX,
                        forall|y: int| 0 <= y < n ==> row_ok(#[trigger] rs[y], w),
                        ranges_known(keys0, rs, w),
                        linked_before(self.group@, rs, tol, w, yoff as int, rowi as int, 0, 0),
                        groups_connected(self.group@, rs, tol, w),
                    decreases n - yoff - rowi,
                {
                    self.link_pair_rows(ranges, tolerance, rowi, yoff);
                    rowi = rowi + 1;
                }
            }
            proof {
                let g = self.group@;
                assert forall|y1: int, j1: int, y2: int, j2: int|
                    #[trigger] close_pair(rs, tol, w, y1, j1, y2, j2) && y2 - y1 < yoff + 1 implies linked(
                    g,
                    rs,
                    w,
                    y1,
                    j1,
                    y2,
                    j2,
                ) by {}
            }
            yoff = yoff + 1;
        }
    }

    /// One step of `link_rows`: the ranges of row `rowi` with those of row
    /// `rowi + yoff`.
    fn link_pair_rows(&mut self, ranges: &Vec<Vec<(usize, usize)>>, tolerance: usize, rowi: usize, yoff: usize)
        requires
            old(self).wf(),
            old(self).width_spec() + tolerance < usize::MAX,
            ranges@.len() * old(self).width_spec() <= usize::MAX,
            1 <= yoff <= tolerance,
            rowi + yoff < ranges@.len(),
            forall|y: int| 0 <= y < ranges@.len() ==> row_ok(#[trigger] rows_view(ranges@)[y], old(self).width_spec() as int),
            ranges_known(old(self).keys(), rows_view(ranges@), old(self).width_spec() as int),
            linked_before(old(self).group_of(), rows_view(ranges@), tolerance as int, old(self).width_spec() as int, yoff as int, rowi as int, 0, 0),
            groups_connected(old(self).group_of(), rows_view(ranges@), tolerance as int, old(self).width_spec() as int),
        ensures
            groups_connected(final(self).group_of(), rows_view(ranges@), tolerance as int, old(self).width_spec() as int),
            final(self).wf(),
            final(self).width_spec() == old(self).width_spec(),
            final(self).keys() == old(self).keys(),
            final(self).first_box() == old(self).first_box(),
            coarser(final(self).group_of(), old(self).group_of()),
            linked_before(final(self).group_of(), rows_view(ranges@), tolerance as int, old(self).width_spec() as int, yoff as int, rowi + 1, 0, 0),
    {
        let ghost g0 = self.group@;
        let ghost keys0 = self.parents@.dom();
        let ghost first0 = self.first@;
        let ghost rs = rows_view(ranges@);
        let ghost tol = tolerance as int;
        let ghost w = self.width as int;
        proof {
            lemma_forest_facts(self.parents@, self.group@, self.first@, self.rank@, self.bound@, self.roots@);
        }
        let width = self.width;
        let nrows = ranges.len();
        assert(rowi + yoff < nrows);
        let row2i = rowi + yoff;
        let base = &ranges[rowi];
        let target = &ranges[row2i];
        let xoff = tolerance - yoff;
        let mut jb: usize = 0;
        while jb < base.len()
            invariant
                self.wf(),
                self.width == width,
                w == width,
                tol == tolerance,
                rs == rows_view(ranges@),
                base@ == rs[rowi as int],
                target@ == rs[row2i as int],
                row2i == rowi + yoff,
                xoff == tolerance - yoff,
                self.parents@.dom() == keys0,
                self.first@ == first0,
                g0.dom() == keys0,
                coarser(self.group@, g0),
                1 <= yoff <= tolerance,
                row2i < rs.len(),
                jb <= base@.len(),
                width + tolerance < usize::MAX,
                rs.len() * width <= usize::MAX,
                forall|y: int| 0 <= y < rs.len() ==> row_ok(#[trigger] rs[y], w),
                ranges_known(keys0, rs, w),
                linked_before(self.group@, rs, tol, w, yoff as int, rowi as int, jb as int, 0),
                groups_connected(self.group@, rs, tol, w),
            decreases base@.len() - jb,
        {
            let (start, end) = base[jb];
            proof {
                assert(row_ok(rs[rowi as int], w));
                assert(base@[jb as int].0 <= base@[jb as int].1 < w);
                lemma_key_bound(rowi as int, start as int, w, rs.len() as int);
                assert(keys0.contains(key_of(w, rowi as int, rs[rowi as int][jb as int].0 as int)));
            }
            let xmin = if start > xoff { start - xoff } else { 0 };
            let xmax = if end + xoff < width { end + xoff } else { width - 1 };
            let mut root = self.get_root(rowi, start);
            let mut jt: usize = 0;
            let mut stopped = false;
            while jt < target.len() && !stopped
                invariant
                    self.wf(),
                    self.width == width,
                    w == width,
                    tol == tolerance,
                    rs == rows_view(ranges@),
                    base@ == rs[rowi as int],
                    target@ == rs[row2i as int],
                    row2i == rowi + yoff,
                    xoff == tolerance - yoff,
                    jb < base@.len(),
                    (start, end) == base@[jb as int],
                    xmin == (if start > xoff { start - xoff } else { 0 }),
                    xmax == (if end + xoff < width { end + xoff } else { width - 1 }) as int,
                    self.parents@.dom() == keys0,
                    self.first@ == first0,
                    g0.dom() == keys0,
                    coarser(self.group@, g0),
                    1 <= yoff <= tolerance,
                    row2i < rs.len(),
                    jt <= target@.len(),
                    width + tolerance < usize::MAX,
                    rs.len() * width <= usize::MAX,
                    forall|y: int| 0 <= y < rs.len() ==> row_ok(#[trigger] rs[y], w),
                    ranges_known(keys0, rs, w),
                    self.roots@.contains_key(root),
                    root == self.group@[key_of(w, rowi as int, start as int)],
                    linked_before(self.group@, rs, tol, w, yoff as int, rowi as int, jb as int, jt as int),
                    groups_connected(self.group@, rs, tol, w),
                    stopped ==> forall|j: int| jt <= j < target@.len() ==> !close(
                        base@[jb as int],
                        #[trigger] target@[j],
                        tol - yoff,
                        w,
                    ),
                decreases target@.len() - jt + (if stopped { 0int } else { 1int }),
            {
                let (start2, end2) = target[jt];
                if end2 < xmin {
                    proof {
                        assert(!close(base@[jb as int], target@[jt as int], tol - yoff, w));
                    }
                    jt = jt + 1;
                } else if start2 > xmax {
                    proof {
                        assert(row_ok(rs[row2i as int], w));
                        assert forall|j: int| jt <= j < target@.len() implies !close(
                            base@[jb as int],
                            #[trigger] target@[j],
                            tol - yoff,
                            w,
                        ) by {
                            if j > jt {
                                assert(target@[jt as int].1 < target@[j].0);
                            }
                        }
                    }
                    stopped = true;
                } else {
                    proof {
                        assert(row_ok(rs[row2i as int], w));
                        assert(target@[jt as int].0 <= target@[jt as int].1 < w);
                        lemma_key_bound(row2i as int, start2 as int, w, rs.len() as int);
                        assert(keys0.contains(key_of(w, row2i as int, rs[row2i as int][jt as int].0 as int)));
                    }
                    let ghost g1 = self.group@;
                    let ghost root0 = root;
                    let root2 = self.get_root(row2i, start2);
                    root = self.merge(root, root2);
                    proof {
                        let g2 = self.group@;
                        lemma_joined_coarser(g1, root, root2);
                        lemma_coarser_trans(g2, g1, g0);
                        lemma_linked_coarser(g1, g2, rs, tol, w, yoff as int, rowi as int, jb as int, jt as int);
                        assert(linked(g2, rs, w, rowi as int, jb as int, row2i as int, jt as int));
                        assert(close_pair(rs, tol, w, rowi as int, jb as int, row2i as int, jt as int));
                        let kb = key_of(w, rowi as int, start as int);
                        let kt = key_of(w, row2i as int, start2 as int);
                        assert(near(rs, tol, w, kb, kt));
                        lemma_join_connected(g1, rs, tol, w, root0, root2, kb, kt);
                    }
                    jt = jt + 1;
                }
            }
            jb = jb + 1;
        }
    }
}


/// The runs of ones of each line.
pub open spec fn line_runs(lines: Seq<Vec<u8>>, tol: int) -> Seq<Seq<(usize, usize)>> {
    lines.map_values(|l: Vec<u8>| runs(ones(l@), tol))
}

/// The columns of the ones of a line increase and lie within it.
proof fn lemma_ones(line: Seq<u8>)
    requires
        line.len() <= 2 * usize::MAX,
    ensures
        forall|i: int, j: int| 0 <= i < j < ones(line).len() ==> ones(line)[i] < ones(line)[j],
        forall|i: int| 0 <= i < ones(line).len() ==> 2 * ones(line)[i] < line.len(),
    decreases line.len(),
{
    if line.len() > 0 {
        let prev = line.drop_last();
        lemma_ones(prev);
        let i = line.len() - 1;
        let o = ones(line);
        let op = ones(prev);
        if i % 2 == 0 && line[i] == 49u8 {
            assert(o == op.push((i / 2) as usize));
            assert forall|a: int, b: int| 0 <= a < b < o.len() implies o[a] < o[b] by {
                if b == o.len() - 1 {
                    assert(2 * op[a] < prev.len());
                    assert(i == 2 * (i / 2));
                    assert(o[a] == op[a]);
                    assert(o[b] == i / 2);
                } else {
                    assert(o[a] == op[a] && o[b] == op[b]);
                }
            }
            assert forall|a: int| 0 <= a < o.len() implies 2 * o[a] < line.len() by {
                if a < op.len() {
                    assert(o[a] == op[a]);
                }
            }
        } else {
            assert(o == op);
        }
    }
}

/// The runs of increasing columns below `w` are ordered, apart and below
/// `w`.
proof fn lemma_runs(cols: Seq<usize>, tol: int, w: int)
    requires
        tol >= 0,
        forall|i: int, j: int| 0 <= i < j < cols.len() ==> cols[i] < cols[j],
        forall|i: int| 0 <= i < cols.len() ==> cols[i] < w,
    ensures
        row_ok(runs(cols, tol), w),
        cols.len() > 0 ==> runs(cols, tol).len() > 0 && runs(cols, tol).last().1 == cols.last(),
    decreases cols.len(),
{
    if cols.len() > 0 {
        let prev = cols.drop_last();
        lemma_runs(prev, tol, w);
        let g = runs(prev, tol);
        let r = runs(cols, tol);
        if prev.len() > 0 {
            assert(prev.last() < cols.last());
        }
        assert forall|j: int, k: int| 0 <= j < k < r.len() implies (#[trigger] r[j]).1 < (#[trigger] r[k]).0 by {
            if k < g.len() - 1 || (k == g.len() - 1 && r.len() == g.len() + 1) {
                if k < g.len() {
                    assert(r[j] == g[j] || j == g.len() - 1);
                }
            }
        }
    }
}

/// The names of the ranges of the rows before `y`, and of the first `j`
/// ranges of row `y`.
pub open spec fn keys_upto(rs: Seq<Seq<(usize, usize)>>, w: int, y: int, j: int) -> Set<usize> {
    Set::new(
        |k: usize|
            exists|y1: int, i: int|
                0 <= y1 < rs.len() && 0 <= i < rs[y1].len() && (y1 < y || (y1 == y && i < j)) && k
                    == #[trigger] key_of(w, y1, rs[y1][i].0 as int),
    )
}

/// The set of the names of all ranges.
pub open spec fn range_keys(rs: Seq<Seq<(usize, usize)>>, w: int) -> Set<usize> {
    keys_upto(rs, w, rs.len() as int, 0)
}

/// Reads the lines of a picture (digits one character apart, `1` for a one)
/// into groups of ranges, and joins every range with the ranges within its
/// reach in the `tolerance` rows below it.
pub fn group_ranges(width: usize, tolerance: usize, lines: &Vec<Vec<u8>>) -> (r: Data)
    requires
        width + tolerance < usize::MAX,
        lines@.len() * width <= usize::MAX,
        forall|y: int| 0 <= y < lines@.len() ==> (#[trigger] lines@[y])@.len() <= 2 * width,
    ensures
        r.wf(),
        r.width_spec() == width,
        r.keys() == range_keys(line_runs(lines@, tolerance as int), width as int),
        forall|y: int, j: int| 0 <= y < lines@.len() && 0 <= j < line_runs(lines@, tolerance as int)[y].len() ==>
            r.first_box()[#[trigger] key_of(width as int, y, line_runs(lines@, tolerance as int)[y][j].0 as int)] == (
                line_runs(lines@, tolerance as int)[y][j].0,
                y as usize,
                line_runs(lines@, tolerance as int)[y][j].1,
                y as usize,
            ),
        forall|y1: int, j1: int, y2: int, j2: int|
            #[trigger] close_pair(line_runs(lines@, tolerance as int), tolerance as int, width as int, y1, j1, y2, j2)
                ==> linked(r.group_of(), line_runs(lines@, tolerance as int), width as int, y1, j1, y2, j2),
        forall|k1: usize, k2: usize| #[trigger] r.keys().contains(k1) && #[trigger] r.keys().contains(k2) ==> (r.group_of()[k1]
            == r.group_of()[k2] <==> connected(line_runs(lines@, tolerance as int), tolerance as int, width as int, k1, k2)),
{
    let ghost w = width as int;
    let ghost tol = tolerance as int;
    let ghost lr = line_runs(lines@, tol);
    proof {
        assert forall|y: int| 0 <= y < lines@.len() implies row_ok(#[trigger] lr[y], w) by {
            lemma_ones(lines@[y]@);
            lemma_runs(ones(lines@[y]@), tol, w);
        }
    }
    let mut data = Data::new(width);
    let mut ranges: Vec<Vec<(usize, usize)>> = Vec::new();
    let mut rowi: usize = 0;
    proof {
        assert(data.keys() =~= keys_upto(lr, w, 0, 0));
    }
    while rowi < lines.len()
        invariant
            data.wf(),
            data.width_spec() == width,
            w == width,
            tol == tolerance,
            lr == line_runs(lines@, tol),
            width + tolerance < usize::MAX,
            lines@.len() * width <= usize::MAX,
            forall|y: int| 0 <= y < lines@.len() ==> (#[trigger] lines@[y])@.len() <= 2 * width,
            rowi <= lines@.len(),
            ranges@.len() == rowi,
            forall|y: int| 0 <= y < rowi ==> (#[trigger] ranges@[y])@ == lr[y],
            forall|y: int| 0 <= y < lines@.len() ==> row_ok(#[trigger] lr[y], w),
            data.keys() == keys_upto(lr, w, rowi as int, 0),
            forall|k: usize| #[trigger] data.keys().contains(k) ==> data.group_of()[k] == k,
            forall|k: usize| #[trigger] data.keys().contains(k) ==> k < rowi * w,
            forall|y: int, j: int| 0 <= y < rowi && 0 <= j < lr[y].len() ==> data.first_box()[#[trigger] key_of(w, y, lr[y][j].0 as int)] == (lr[y][j].0, y as usize, lr[y][j].1, y as usize),
        decreases lines@.len() - rowi,
    {
        let line = &lines[rowi];
        let cur = row_ranges(line.as_slice(), tolerance);
        assert(cur@ == lr[rowi as int]);
        let mut j: usize = 0;
        while j < cur.len()
            invariant
                data.wf(),
                data.width_spec() == width,
                w == width,
                lr == line_runs(lines@, tol),
                rowi < lines@.len(),
                lines@.len() * width <= usize::MAX,
                cur@ == lr[rowi as int],
                row_ok(cur@, w),
                j <= cur@.len(),
                data.keys() == keys_upto(lr, w, rowi as int, j as int),
                forall|k: usize| #[trigger] data.keys().contains(k) ==> data.group_of()[k] == k,
                forall|k: usize| #[trigger] data.keys().contains(k) ==> k < rowi * w + (if j == 0 { 0 } else { cur@[j - 1].0 + 1 }),
                forall|y: int, i: int| 0 <= y < rowi && 0 <= i < lr[y].len() ==> data.first_box()[#[trigger] key_of(w, y, lr[y][i].0 as int)] == (lr[y][i].0, y as usize, lr[y][i].1, y as usize),
                forall|i: int| 0 <= i < j ==> data.first_box()[#[trigger] key_of(w, rowi as int, lr[rowi as int][i].0 as int)] == (cur@[i].0, rowi, cur@[i].1, rowi),
            decreases cur@.len() - j,
        {
            let (s, e) = cur[j];
            let ghost before = data;
            proof {
                lemma_key_bound(rowi as int, s as int, w, lines@.len() as int);
                if j > 0 {
                    assert(cur@[j - 1].1 < cur@[j as int].0);
                    assert(cur@[j - 1].0 <= cur@[j - 1].1);
                }
                assert(key_of(w, rowi as int, s as int) == rowi * w + s);
                assert(!data.keys().contains((rowi * w + s) as usize));
            }
            data.add_root(rowi, s, e);
            proof {
                let key = key_of(w, rowi as int, s as int);
                assert(data.keys() =~= keys_upto(lr, w, rowi as int, j + 1)) by {
                    assert forall|k: usize| keys_upto(lr, w, rowi as int, j + 1).contains(k) implies data.keys().contains(k) by {
                        let (y1, i) = choose|y1: int, i: int|
                            0 <= y1 < lr.len() && 0 <= i < lr[y1].len() && (y1 < rowi || (y1 == rowi && i < j + 1)) && k
                                == #[trigger] key_of(w, y1, lr[y1][i].0 as int);
                        if !(y1 == rowi && i == j) {
                            assert(keys_upto(lr, w, rowi as int, j as int).contains(k));
                        }
                    }
                    assert forall|k: usize| data.keys().contains(k) implies keys_upto(lr, w, rowi as int, j + 1).contains(k) by {
                        if k == key {
                            assert(k == key_of(w, rowi as int, lr[rowi as int][j as int].0 as int));
                        } else {
                            assert(before.keys().contains(k));
                            let (y1, i) = choose|y1: int, i: int|
                                0 <= y1 < lr.len() && 0 <= i < lr[y1].len() && (y1 < rowi || (y1 == rowi && i < j)) && k
                                    == #[trigger] key_of(w, y1, lr[y1][i].0 as int);
                            assert(k == key_of(w, y1, lr[y1][i].0 as int));
                        }
                    }
                }
                assert forall|y: int, i: int| 0 <= y < rowi && 0 <= i < lr[y].len() implies data.first_box()[#[trigger] key_of(w, y, lr[y][i].0 as int)] == (lr[y][i].0, y as usize, lr[y][i].1, y as usize) by {
                    assert(keys_upto(lr, w, rowi as int, j as int).contains(key_of(w, y, lr[y][i].0 as int)));
                }
                assert forall|i: int| 0 <= i < j + 1 implies data.first_box()[#[trigger] key_of(w, rowi as int, lr[rowi as int][i].0 as int)] == (cur@[i].0, rowi, cur@[i].1, rowi) by {
                    if i < j {
                        assert(keys_upto(lr, w, rowi as int, j as int).contains(key_of(w, rowi as int, lr[rowi as int][i].0 as int)));
                    }
                }
            }
            j = j + 1;
        }
        proof {
            assert(data.keys() =~= keys_upto(lr, w, rowi + 1, 0)) by {
                assert forall|k: usize| keys_upto(lr, w, rowi + 1, 0).contains(k) implies data.keys().contains(k) by {
                    let (y1, i) = choose|y1: int, i: int|
                        0 <= y1 < lr.len() && 0 <= i < lr[y1].len() && (y1 < rowi + 1 || (y1 == rowi + 1 && i < 0)) && k
                            == #[trigger] key_of(w, y1, lr[y1][i].0 as int);
                    assert(keys_upto(lr, w, rowi as int, j as int).contains(k));
                }
                assert forall|k: usize| data.keys().contains(k) implies keys_upto(lr, w, rowi + 1, 0).contains(k) by {
                    let (y1, i) = choose|y1: int, i: int|
                        0 <= y1 < lr.len() && 0 <= i < lr[y1].len() && (y1 < rowi || (y1 == rowi && i < j)) && k
                            == #[trigger] key_of(w, y1, lr[y1][i].0 as int);
                    assert(k == key_of(w, y1, lr[y1][i].0 as int));
                }
            }
            if j > 0 {
                assert(cur@[j - 1].0 < w);
            }
            assert(rowi * w + w == (rowi + 1) * w) by (nonlinear_arith);
        }
        ranges.push(cur);
        rowi = rowi + 1;
    }
    proof {
        assert(rows_view(ranges@) =~= lr);
        assert(data.keys() =~= range_keys(lr, w));
        assert forall|y: int, j: int| 0 <= y < rows_view(ranges@).len() && 0 <= j < rows_view(ranges@)[y].len() implies data.keys().contains(
            #[trigger] key_of(w, y, rows_view(ranges@)[y][j].0 as int),
        ) by {
            assert(keys_upto(lr, w, lr.len() as int, 0).contains(key_of(w, y, lr[y][j].0 as int)));
        }
    }
    proof {
        lemma_forest_facts(data.parents@, data.group@, data.first@, data.rank@, data.bound@, data.roots@);
        assert forall|k1: usize, k2: usize|
            data.group_of().contains_key(k1) && data.group_of().contains_key(k2) && #[trigger] data.group_of()[k1]
                == #[trigger] data.group_of()[k2] implies connected(rows_view(ranges@), tol, w, k1, k2) by {
            assert(data.keys().contains(k1) && data.keys().contains(k2));
            lemma_connected_refl(rows_view(ranges@), tol, w, k1);
        }
    }
    data.link_rows(&ranges, tolerance);
    proof {
        lemma_forest_facts(data.parents@, data.group@, data.first@, data.rank@, data.bound@, data.roots@);
        assert forall|k1: usize, k2: usize| #[trigger] data.keys().contains(k1) && #[trigger] data.keys().contains(k2) implies (
        data.group_of()[k1] == data.group_of()[k2] <==> connected(lr, tol, w, k1, k2)) by {
            if connected(lr, tol, w, k1, k2) {
                let p = choose|p: Seq<usize>| #[trigger] chain_ok(lr, tol, w, p) && p[0] == k1 && p.last() == k2;
                lemma_connected_linked(data.group_of(), lr, tol, w, p);
            }
        }
    }
    data
}


impl Data {
    /// The box of each group is the bounding box of the boxes its ranges
    /// were added with: it holds each of them, and each of its sides is a
    /// side of one of them.
    pub proof fn lemma_group_box(&self, r: usize)
        requires
            self.wf(),
            self.boxes().contains_key(r),
        ensures
            forall|k: usize| #[trigger] self.keys().contains(k) && self.group_of()[k] == r ==> rect_within(
                self.first_box()[k],
                self.boxes()[r],
            ),
            exists|k: usize| #[trigger] self.keys().contains(k) && self.group_of()[k] == r && self.first_box()[k].0 == self.boxes()[r].0,
            exists|k: usize| #[trigger] self.keys().contains(k) && self.group_of()[k] == r && self.first_box()[k].1 == self.boxes()[r].1,
            exists|k: usize| #[trigger] self.keys().contains(k) && self.group_of()[k] == r && self.first_box()[k].2 == self.boxes()[r].2,
            exists|k: usize| #[trigger] self.keys().contains(k) && self.group_of()[k] == r && self.first_box()[k].3 == self.boxes()[r].3,
    {
        reveal(forest_ok);
        assert forall|k: usize| #[trigger] self.keys().contains(k) && self.group_of()[k] == r implies rect_within(
            self.first_box()[k],
            self.boxes()[r],
        ) by {
            assert(node_ok(self.parents@, self.group@, self.first@, self.rank@, self.bound@, self.roots@, k));
        }
        assert(box_attained(self.parents@, self.group@, self.first@, self.roots@[r], r));
        let g = self.group@;
        let p = self.parents@;
        let k0 = choose|k: usize| #![trigger g[k]] p.contains_key(k) && g[k] == r && self.first@[k].0 == self.roots@[r].0;
        assert(self.keys().contains(k0));
        let k1 = choose|k: usize| #![trigger g[k]] p.contains_key(k) && g[k] == r && self.first@[k].1 == self.roots@[r].1;
        assert(self.keys().contains(k1));
        let k2 = choose|k: usize| #![trigger g[k]] p.contains_key(k) && g[k] == r && self.first@[k].2 == self.roots@[r].2;
        assert(self.keys().contains(k2));
        let k3 = choose|k: usize| #![trigger g[k]] p.contains_key(k) && g[k] == r && self.first@[k].3 == self.roots@[r].3;
        assert(self.keys().contains(k3));
    }

    /// Every range belongs to a group whose root is a group with a box.
    pub proof fn lemma_group_root(&self, k: usize)
        requires
            self.wf(),
            self.keys().contains(k),
        ensures
            self.boxes().contains_key(self.group_of()[k]),
            self.group_of()[self.group_of()[k]] == self.group_of()[k],
    {
        reveal(forest_ok);
        assert(node_ok(self.parents@, self.group@, self.first@, self.rank@, self.bound@, self.roots@, k));
        let r = self.group@[k];
        assert(node_ok(self.parents@, self.group@, self.first@, self.rank@, self.bound@, self.roots@, r));
    }
}

/// Ranges `k1` and `k2` (by name) form a close pair, one way or the other.
pub open spec fn near(rs: Seq<Seq<(usize, usize)>>, tol: int, w: int, k1: usize, k2: usize) -> bool {
    exists|y1: int, j1: int, y2: int, j2: int|
        #[trigger] close_pair(rs, tol, w, y1, j1, y2, j2) && {
            let a = key_of(w, y1, rs[y1][j1].0 as int);
            let b = key_of(w, y2, rs[y2][j2].0 as int);
            (k1 == a && k2 == b) || (k1 == b && k2 == a)
        }
}

/// A chain of ranges, each near the next.
pub open spec fn chain_ok(rs: Seq<Seq<(usize, usize)>>, tol: int, w: int, p: Seq<usize>) -> bool {
    &&& p.len() >= 1
    &&& forall|i: int| 0 <= i < p.len() - 1 ==> near(rs, tol, w, #[trigger] p[i], p[i + 1])
}

/// Some chain of close pairs leads from range `k1` to range `k2`.
pub open spec fn connected(rs: Seq<Seq<(usize, usize)>>, tol: int, w: int, k1: usize, k2: usize) -> bool {
    exists|p: Seq<usize>| #[trigger] chain_ok(rs, tol, w, p) && p[0] == k1 && p.last() == k2
}

/// Ranges in one group of `g` are connected by a chain of close pairs.
pub open spec fn groups_connected(g: Map<usize, usize>, rs: Seq<Seq<(usize, usize)>>, tol: int, w: int) -> bool {
    forall|k1: usize, k2: usize|
        g.contains_key(k1) && g.contains_key(k2) && #[trigger] g[k1] == #[trigger] g[k2] ==> connected(rs, tol, w, k1, k2)
}

proof fn lemma_connected_refl(rs: Seq<Seq<(usize, usize)>>, tol: int, w: int, k: usize)
    ensures
        connected(rs, tol, w, k, k),
{
    let p = seq![k];
    assert(chain_ok(rs, tol, w, p));
}

proof fn lemma_near_connected(rs: Seq<Seq<(usize, usize)>>, tol: int, w: int, a: usize, b: usize)
    requires
        near(rs, tol, w, a, b),
    ensures
        connected(rs, tol, w, a, b),
{
    let p = seq![a, b];
    assert(chain_ok(rs, tol, w, p)) by {
        assert forall|i: int| 0 <= i < p.len() - 1 implies near(rs, tol, w, #[trigger] p[i], p[i + 1]) by {
            assert(i == 0);
        }
    }
}

proof fn lemma_connected_trans(rs: Seq<Seq<(usize, usize)>>, tol: int, w: int, a: usize, b: usize, c: usize)
    requires
        connected(rs, tol, w, a, b),
        connected(rs, tol, w, b, c),
    ensures
        connected(rs, tol, w, a, c),
{
    let p = choose|p: Seq<usize>| #[trigger] chain_ok(rs, tol, w, p) && p[0] == a && p.last() == b;
    let q = choose|q: Seq<usize>| #[trigger] chain_ok(rs, tol, w, q) && q[0] == b && q.last() == c;
    let r = p + q.drop_first();
    assert(chain_ok(rs, tol, w, r)) by {
        assert forall|i: int| 0 <= i < r.len() - 1 implies near(rs, tol, w, #[trigger] r[i], r[i + 1]) by {
            if i < p.len() - 1 {
                assert(r[i] == p[i] && r[i + 1] == p[i + 1]);
            } else if i == p.len() - 1 {
                assert(r[i] == p.last());
                assert(r[i + 1] == q[1]);
                assert(near(rs, tol, w, q[0], q[1]));
            } else {
                let j = i - p.len() + 1;
                assert(r[i] == q[j] && r[i + 1] == q[j + 1]);
                assert(near(rs, tol, w, q[j], q[j + 1]));
            }
        }
    }
    if q.len() == 1 {
        assert(r.last() == p.last());
    } else {
        assert(r.last() == q.last());
    }
}

proof fn lemma_connected_sym(rs: Seq<Seq<(usize, usize)>>, tol: int, w: int, a: usize, b: usize)
    requires
        connected(rs, tol, w, a, b),
    ensures
        connected(rs, tol, w, b, a),
{
    let p = choose|p: Seq<usize>| #[trigger] chain_ok(rs, tol, w, p) && p[0] == a && p.last() == b;
    let r = p.reverse();
    assert(chain_ok(rs, tol, w, r)) by {
        assert forall|i: int| 0 <= i < r.len() - 1 implies near(rs, tol, w, #[trigger] r[i], r[i + 1]) by {
            let j = p.len() - 2 - i;
            assert(r[i] == p[j + 1] && r[i + 1] == p[j]);
            assert(near(rs, tol, w, p[j], p[j + 1]));
            let (y1, j1, y2, j2) = choose|y1: int, j1: int, y2: int, j2: int|
                #[trigger] close_pair(rs, tol, w, y1, j1, y2, j2) && {
                    let a = key_of(w, y1, rs[y1][j1].0 as int);
                    let b = key_of(w, y2, rs[y2][j2].0 as int);
                    (p[j] == a && p[j + 1] == b) || (p[j] == b && p[j + 1] == a)
                };
            assert(close_pair(rs, tol, w, y1, j1, y2, j2));
        }
    }
}

/// Joining the groups of two near ranges keeps every group connected.
proof fn lemma_join_connected(
    g: Map<usize, usize>,
    rs: Seq<Seq<(usize, usize)>>,
    tol: int,
    w: int,
    r1: usize,
    r2: usize,
    kb: usize,
    kt: usize,
)
    requires
        groups_connected(g, rs, tol, w),
        g.contains_key(kb),
        g.contains_key(kt),
        g[kb] == r1,
        g[kt] == r2,
        near(rs, tol, w, kb, kt),
    ensures
        groups_connected(joined_groups(g, r1, r2), rs, tol, w),
{
    let g2 = joined_groups(g, r1, r2);
    lemma_near_connected(rs, tol, w, kb, kt);
    lemma_connected_sym(rs, tol, w, kb, kt);
    assert forall|a: usize, b: usize| g2.contains_key(a) && g2.contains_key(b) && #[trigger] g2[a] == #[trigger] g2[b]
        implies connected(rs, tol, w, a, b) by {
        if g[a] == g[b] {
        } else if (g[a] == r1 || g[a] == r2) && (g[b] == r1 || g[b] == r2) {
            if g[a] == r1 {
                assert(g[b] == r2);
                assert(connected(rs, tol, w, a, kb));
                assert(connected(rs, tol, w, kt, b));
                lemma_connected_trans(rs, tol, w, a, kb, kt);
                lemma_connected_trans(rs, tol, w, a, kt, b);
            } else {
                assert(g[a] == r2 && g[b] == r1);
                assert(connected(rs, tol, w, a, kt));
                assert(connected(rs, tol, w, kb, b));
                lemma_connected_trans(rs, tol, w, a, kt, kb);
                lemma_connected_trans(rs, tol, w, a, kb, b);
            }
        } else {
            assert(false);
        }
    }
}

/// Ranges connected by a chain of close pairs, all of which are linked,
/// are in one group.
proof fn lemma_connected_linked(g: Map<usize, usize>, rs: Seq<Seq<(usize, usize)>>, tol: int, w: int, p: Seq<usize>)
    requires
        chain_ok(rs, tol, w, p),
        forall|y1: int, j1: int, y2: int, j2: int| #[trigger] close_pair(rs, tol, w, y1, j1, y2, j2) ==> linked(g, rs, w, y1, j1, y2, j2),
    ensures
        g[p[0]] == g[p.last()],
    decreases p.len(),
{
    if p.len() > 1 {
        let q = p.drop_last();
        assert(chain_ok(rs, tol, w, q)) by {
            assert forall|i: int| 0 <= i < q.len() - 1 implies near(rs, tol, w, #[trigger] q[i], q[i + 1]) by {
                assert(q[i] == p[i] && q[i + 1] == p[i + 1]);
                assert(near(rs, tol, w, p[i], p[i + 1]));
            }
        }
        lemma_connected_linked(g, rs, tol, w, q);
        let i = p.len() - 2;
        assert(near(rs, tol, w, p[i], p[i + 1]));
        let (y1, j1, y2, j2) = choose|y1: int, j1: int, y2: int, j2: int|
            #[trigger] close_pair(rs, tol, w, y1, j1, y2, j2) && {
                let a = key_of(w, y1, rs[y1][j1].0 as int);
                let b = key_of(w, y2, rs[y2][j2].0 as int);
                (p[i] == a && p[i + 1] == b) || (p[i] == b && p[i + 1] == a)
            };
        assert(linked(g, rs, w, y1, j1, y2, j2));
        assert(q.last() == p[i]);
    }
}

} // verus!
