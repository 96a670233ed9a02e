//! Counting how many faces of a picture, cut into 3 by 3 tiles, a cube can
//! show: each cube is described by its 27 cells, and each of its 24
//! orientations shows one 3 by 3 face.
use vstd::prelude::*;
use crate::hm::same_bytes;

verus! {

/// For each of the 24 orientations of a cube, the cells (numbered 0 to 26,
/// layer by layer) that its shown face reads, row by row.
pub open spec fn face_table() -> Seq<Seq<int>> {
    seq![
        seq![0, 1, 2, 9, 10, 11, 18, 19, 20],
        seq![0, 3, 6, 1, 4, 7, 2, 5, 8],
        seq![0, 9, 18, 3, 12, 21, 6, 15, 24],
        seq![2, 1, 0, 5, 4, 3, 8, 7, 6],
        seq![2, 5, 8, 11, 14, 17, 20, 23, 26],
        seq![2, 11, 20, 1, 10, 19, 0, 9, 18],
        seq![6, 3, 0, 15, 12, 9, 24, 21, 18],
        seq![6, 7, 8, 3, 4, 5, 0, 1, 2],
        seq![6, 15, 24, 7, 16, 25, 8, 17, 26],
        seq![8, 5, 2, 7, 4, 1, 6, 3, 0],
        seq![8, 7, 6, 17, 16, 15, 26, 25, 24],
        seq![8, 17, 26, 5, 14, 23, 2, 11, 20],
        seq![18, 9, 0, 19, 10, 1, 20, 11, 2],
        seq![18, 19, 20, 21, 22, 23, 24, 25, 26],
        seq![18, 21, 24, 9, 12, 15, 0, 3, 6],
        seq![20, 11, 2, 23, 14, 5, 26, 17, 8],
        seq![20, 19, 18, 11, 10, 9, 2, 1, 0],
        seq![20, 23, 26, 19, 22, 25, 18, 21, 24],
        seq![24, 15, 6, 21, 12, 3, 18, 9, 0],
        seq![24, 21, 18, 25, 22, 19, 26, 23, 20],
        seq![24, 25, 26, 15, 16, 17, 6, 7, 8],
        seq![26, 17, 8, 25, 16, 7, 24, 15, 6],
        seq![26, 23, 20, 17, 14, 11, 8, 5, 2],
        seq![26, 25, 24, 23, 22, 21, 20, 19, 18],
    ]
}

/// Cell `k` of the face shown in orientation `o`.
pub fn face_cell(o: usize, k: usize) -> (r: usize)
    requires
        o < 24,
        k < 9,
    ensures
        r == face_table()[o as int][k as int],
        r < 27,
{
    let table: [[usize; 9]; 24] = [
        [0, 1, 2, 9, 10, 11, 18, 19, 20],
        [0, 3, 6, 1, 4, 7, 2, 5, 8],
        [0, 9, 18, 3, 12, 21, 6, 15, 24],
        [2, 1, 0, 5, 4, 3, 8, 7, 6],
        [2, 5, 8, 11, 14, 17, 20, 23, 26],
        [2, 11, 20, 1, 10, 19, 0, 9, 18],
        [6, 3, 0, 15, 12, 9, 24, 21, 18],
        [6, 7, 8, 3, 4, 5, 0, 1, 2],
        [6, 15, 24, 7, 16, 25, 8, 17, 26],
        [8, 5, 2, 7, 4, 1, 6, 3, 0],
        [8, 7, 6, 17, 16, 15, 26, 25, 24],
        [8, 17, 26, 5, 14, 23, 2, 11, 20],
        [18, 9, 0, 19, 10, 1, 20, 11, 2],
        [18, 19, 20, 21, 22, 23, 24, 25, 26],
        [18, 21, 24, 9, 12, 15, 0, 3, 6],
        [20, 11, 2, 23, 14, 5, 26, 17, 8],
        [20, 19, 18, 11, 10, 9, 2, 1, 0],
        [20, 23, 26, 19, 22, 25, 18, 21, 24],
        [24, 15, 6, 21, 12, 3, 18, 9, 0],
        [24, 21, 18, 25, 22, 19, 26, 23, 20],
        [24, 25, 26, 15, 16, 17, 6, 7, 8],
        [26, 17, 8, 25, 16, 7, 24, 15, 6],
        [26, 23, 20, 17, 14, 11, 8, 5, 2],
        [26, 25, 24, 23, 22, 21, 20, 19, 18],
    ];
    let row = table[o];
    proof {
        assert(table@[o as int]@ =~= face_table()[o as int].map_values(|c: int| c as usize));
    }
    row[k]
}

/// The face shown in orientation `o` by a cube described by its cells.
pub open spec fn face_of(desc: Seq<u8>, o: int) -> Seq<u8> {
    Seq::new(9, |k: int| desc[face_table()[o][k]])
}

/// The face shown in orientation `o`.
pub fn read_face(desc: &[u8], o: usize) -> (r: Vec<u8>)
    requires
        desc@.len() >= 27,
        o < 24,
    ensures
        r@ == face_of(desc@, o as int),
{
    let mut r: Vec<u8> = Vec::new();
    let mut k: usize = 0;
    while k < 9
        invariant
            k <= 9,
            o < 24,
            desc@.len() >= 27,
            r@.len() == k,
            forall|q: int| 0 <= q < k ==> r@[q] == face_of(desc@, o as int)[q],
        decreases 9 - k,
    {
        let c = face_cell(o, k);
        r.push(desc[c]);
        k = k + 1;
    }
    proof {
        assert(r@ =~= face_of(desc@, o as int));
    }
    r
}

/// The tile at column `x` and row `y` of a picture of 3 by 3 tiles, read
/// row by row.
pub open spec fn tile(rows: Seq<Vec<u8>>, x: int, y: int) -> Seq<u8> {
    Seq::new(9, |k: int| rows[3 * y + k / 3]@[3 * x + k % 3])
}

/// The tiles of a picture `w` tiles wide, row by row.
pub open spec fn tiles(rows: Seq<Vec<u8>>, w: int, h: int) -> Seq<Seq<u8>> {
    Seq::new((w * h) as nat, |t: int| tile(rows, t % w, t / w))
}

/// How many times `f` occurs in `faces`.
pub open spec fn count_in(faces: Seq<Seq<u8>>, f: Seq<u8>) -> nat
    decreases faces.len(),
{
    if faces.len() == 0 {
        0
    } else {
        count_in(faces.drop_last(), f) + if faces.last() == f { 1nat } else { 0nat }
    }
}

proof fn lemma_count_in_bound(faces: Seq<Seq<u8>>, f: Seq<u8>)
    ensures
        count_in(faces, f) <= faces.len(),
        !faces.contains(f) ==> count_in(faces, f) == 0,
    decreases faces.len(),
{
    if faces.len() > 0 {
        lemma_count_in_bound(faces.drop_last(), f);
        if !faces.contains(f) {
            assert(!faces.drop_last().contains(f)) by {
                if faces.drop_last().contains(f) {
                    let i = choose|i: int| 0 <= i < faces.drop_last().len() && faces.drop_last()[i] == f;
                    assert(faces[i] == f);
                }
            }
            assert(faces[faces.len() - 1] != f);
        }
    }
}

/// Some entry holds tile `f`.
pub open spec fn has_entry(entries: Seq<(Vec<u8>, usize)>, f: Seq<u8>) -> bool {
    exists|i: int| 0 <= i < entries.len() && #[trigger] entries[i].0@ == f
}

/// The tiles of a picture with how many times each occurs.
pub struct FaceCounts {
    entries: Vec<(Vec<u8>, usize)>,
    all: Ghost<Seq<Seq<u8>>>,
}

impl FaceCounts {
    /// The tiles counted.
    pub closed spec fn faces(&self) -> Seq<Seq<u8>> {
        self.all@
    }

    /// Each entry holds a distinct tile and its count, and every tile has
    /// an entry.
    pub closed spec fn wf(&self) -> bool {
        &&& self.all@.len() * 24 <= usize::MAX
        &&& forall|i: int| 0 <= i < self.entries@.len() ==> (#[trigger] self.entries@[i]).1 == count_in(self.all@, self.entries@[i].0@)
        &&& forall|i: int, j: int| 0 <= i < j < self.entries@.len() ==> (#[trigger] self.entries@[i]).0@ != (#[trigger] self.entries@[j]).0@
        &&& forall|t: int| 0 <= t < self.all@.len() ==> has_entry(self.entries@, #[trigger] self.all@[t])
    }

    /// How many tiles are `f`.
    pub fn count_of(&self, f: &[u8]) -> (r: usize)
        requires
            self.wf(),
        ensures
            r == count_in(self.faces(), f@),
    {
        let mut i: usize = 0;
        while i < self.entries.len()
            invariant
                self.wf(),
                i <= self.entries@.len(),
                forall|q: int| 0 <= q < i ==> (#[trigger] self.entries@[q]).0@ != f@,
            decreases self.entries@.len() - i,
        {
            if same_bytes(self.entries[i].0.as_slice(), f) {
                return self.entries[i].1;
            }
            i = i + 1;
        }
        proof {
            assert(!self.all@.contains(f@)) by {
                if self.all@.contains(f@) {
                    let t = choose|t: int| 0 <= t < self.all@.len() && self.all@[t] == f@;
                    assert(has_entry(self.entries@, self.all@[t]));
                }
            }
            lemma_count_in_bound(self.all@, f@);
        }
        0
    }
}

impl FaceCounts {
    /// Adds one tile.
    fn add_face(&mut self, f: Vec<u8>)
        requires
            old(self).wf(),
            (old(self).faces().len() + 1) * 24 <= usize::MAX,
        ensures
            final(self).wf(),
            final(self).faces() == old(self).faces().push(f@),
    {
        let ghost all0 = self.all@;
        let ghost all1 = self.all@.push(f@);
        proof {
            assert(all1.drop_last() =~= all0);
            assert(all1.last() == f@);
            lemma_count_in_bound(self.all@, f@);
        }
        let mut i: usize = 0;
        while i < self.entries.len()
            invariant
                self.wf(),
                self.all@ == all0,
                old(self).all@ == all0,
                all1 == all0.push(f@),
                all1.drop_last() == all0,
                all1.last() == f@,
                (self.all@.len() + 1) * 24 <= usize::MAX,
                i <= self.entries@.len(),
                forall|q: int| 0 <= q < i ==> (#[trigger] self.entries@[q]).0@ != f@,
            decreases self.entries@.len() - i,
        {
            if same_bytes(self.entries[i].0.as_slice(), f.as_slice()) {
                let ghost e0 = self.entries@;
                let c = self.entries[i].1;
                proof {
                    lemma_count_in_bound(self.all@, f@);
                    assert(c <= self.all@.len());
                }
                let key = self.entries[i].0.clone();
                proof {
                    assert(key@ == e0[i as int].0@);
                }
                self.entries.set(i, (key, c + 1));
                proof {
                    self.all@ = all1;
                    assert forall|q: int| 0 <= q < self.entries@.len() implies (#[trigger] self.entries@[q]).1 == count_in(self.all@, self.entries@[q].0@) by {
                        assert(self.all@.drop_last() =~= all0);
                        if q != i {
                            assert(self.entries@[q] == e0[q]);
                        }
                    }
                    assert forall|t: int| 0 <= t < self.all@.len() implies has_entry(self.entries@, #[trigger] self.all@[t]) by {
                        if t < self.all@.len() - 1 {
                            assert(has_entry(e0, all0[t]));
                            let q = choose|q: int| 0 <= q < e0.len() && #[trigger] e0[q].0@ == all0[t];
                            assert(self.entries@[q].0@ == e0[q].0@);
                        } else {
                            assert(self.entries@[i as int].0@ == f@);
                        }
                    }
                    assert forall|a: int, b: int| 0 <= a < b < self.entries@.len() implies (#[trigger] self.entries@[a]).0@ != (#[trigger] self.entries@[b]).0@ by {
                        assert(self.entries@[a].0@ == e0[a].0@);
                        assert(self.entries@[b].0@ == e0[b].0@);
                    }
                }
                return;
            }
            i = i + 1;
        }
        let ghost e0 = self.entries@;
        proof {
            assert(!self.all@.contains(f@)) by {
                if self.all@.contains(f@) {
                    let t = choose|t: int| 0 <= t < self.all@.len() && self.all@[t] == f@;
                    assert(has_entry(self.entries@, self.all@[t]));
                }
            }
            lemma_count_in_bound(self.all@, f@);
        }
        self.entries.push((f, 1));
        proof {
            self.all@ = all1;
            assert forall|q: int| 0 <= q < self.entries@.len() implies (#[trigger] self.entries@[q]).1 == count_in(self.all@, self.entries@[q].0@) by {
                assert(self.all@.drop_last() =~= all0);
                if q < e0.len() {
                    assert(self.entries@[q] == e0[q]);
                }
            }
            assert forall|t: int| 0 <= t < self.all@.len() implies has_entry(self.entries@, #[trigger] self.all@[t]) by {
                if t < self.all@.len() - 1 {
                    assert(has_entry(e0, all0[t]));
                    let q = choose|q: int| 0 <= q < e0.len() && #[trigger] e0[q].0@ == all0[t];
                    assert(self.entries@[q] == e0[q]);
                } else {
                    assert(self.entries@[e0.len() as int].0@ == self.all@[t]);
                }
            }
            assert forall|a: int, b: int| 0 <= a < b < self.entries@.len() implies (#[trigger] self.entries@[a]).0@ != (#[trigger] self.entries@[b]).0@ by {
                if b == e0.len() {
                    assert(self.entries@[a] == e0[a]);
                } else {
                    assert(self.entries@[a] == e0[a]);
                    assert(self.entries@[b] == e0[b]);
                }
            }
        }
    }

    /// Counts the tiles of a picture of `height` rows of `width` tiles,
    /// each tile 3 by 3 cells, given as its `3 * height` lines of cells.
    pub fn from_picture(rows: &Vec<Vec<u8>>, width: usize, height: usize) -> (r: Self)
        requires
            rows@.len() >= 3 * height,
            width * height * 24 <= usize::MAX,
            forall|y: int| 0 <= y < 3 * height ==> (#[trigger] rows@[y])@.len() >= 3 * width,
        ensures
            r.wf(),
            r.faces() == tiles(rows@, width as int, height as int),
    {
        let mut r = FaceCounts { entries: Vec::new(), all: Ghost(Seq::empty()) };
        let ghost all = tiles(rows@, width as int, height as int);
        let mut y: usize = 0;
        while y < height
            invariant
                r.wf(),
                y <= height,
                rows@.len() >= 3 * height,
                width * height * 24 <= usize::MAX,
                forall|yy: int| 0 <= yy < 3 * height ==> (#[trigger] rows@[yy])@.len() >= 3 * width,
                all == tiles(rows@, width as int, height as int),
                r.faces() =~= all.take(y * width),
            decreases height - y,
        {
            let mut x: usize = 0;
            while x < width
                invariant
                    r.wf(),
                    y < height,
                    x <= width,
                    rows@.len() >= 3 * height,
                    width * height * 24 <= usize::MAX,
                    forall|yy: int| 0 <= yy < 3 * height ==> (#[trigger] rows@[yy])@.len() >= 3 * width,
                    all == tiles(rows@, width as int, height as int),
                    r.faces() =~= all.take(y * width + x),
                decreases width - x,
            {
                proof {
                    assert(y * width + x < width * height) by (nonlinear_arith)
                        requires
                            y < height,
                            x < width,
                    ;
                    assert(3 * y + 2 < 3 * height);
                }
                let nrows = rows.len();
                let mut f: Vec<u8> = Vec::new();
                let mut k: usize = 0;
                while k < 9
                    invariant
                        nrows == rows@.len(),
                        k <= 9,
                        y < height,
                        x < width,
                        rows@.len() >= 3 * height,
                        forall|yy: int| 0 <= yy < 3 * height ==> (#[trigger] rows@[yy])@.len() >= 3 * width,
                        f@.len() == k,
                        forall|q: int| 0 <= q < k ==> f@[q] == tile(rows@, x as int, y as int)[q],
                    decreases 9 - k,
                {
                    assert(3 * y + k / 3 < 3 * height);
                    let row = &rows[3 * y + k / 3];
                    let rl = row.len();
                    assert(3 * x + k % 3 < 3 * width);
                    f.push(row[3 * x + k % 3]);
                    k = k + 1;
                }
                proof {
                    assert(f@ =~= tile(rows@, x as int, y as int));
                    let t = y * width + x;
                    assert(t % (width as int) == x && t / (width as int) == y) by (nonlinear_arith)
                        requires
                            t == y * width + x,
                            x < width,
                    ;
                    assert(all[t] == f@);
                    assert(all.take(t + 1) =~= all.take(t).push(f@));
                    assert((t + 1) * 24 <= usize::MAX) by (nonlinear_arith)
                        requires
                            t < width * height,
                            width * height * 24 <= usize::MAX,
                    ;
                }
                r.add_face(f);
                x = x + 1;
            }
            proof {
                assert(y * width + width == (y + 1) * width) by (nonlinear_arith);
            }
            y = y + 1;
        }
        proof {
            assert(all.take(height * width) =~= all) by {
                assert(all.len() == width * height);
                assert(height * width == width * height) by (nonlinear_arith);
            }
        }
        r
    }
}

/// Orientation `o` shows a face that an earlier orientation shows too.
pub open spec fn seen_before(desc: Seq<u8>, o: int) -> bool {
    exists|p: int| 0 <= p < o && #[trigger] face_of(desc, p) == face_of(desc, o)
}

/// The tiles matching the distinct faces shown by the first `n`
/// orientations of the cube, counted once per face.
pub open spec fn distinct_total(desc: Seq<u8>, faces: Seq<Seq<u8>>, n: nat) -> nat
    decreases n,
{
    if n == 0 {
        0
    } else {
        distinct_total(desc, faces, (n - 1) as nat) + if seen_before(desc, n - 1) {
            0nat
        } else {
            count_in(faces, face_of(desc, n - 1))
        }
    }
}

proof fn lemma_distinct_total_bound(desc: Seq<u8>, faces: Seq<Seq<u8>>, n: nat)
    ensures
        distinct_total(desc, faces, n) <= n * faces.len(),
    decreases n,
{
    if n > 0 {
        lemma_distinct_total_bound(desc, faces, (n - 1) as nat);
        lemma_count_in_bound(faces, face_of(desc, n - 1));
        assert((n - 1) * faces.len() + faces.len() == n * faces.len()) by (nonlinear_arith);
    }
}

/// The faces shown by the first `n` orientations, each the first time it
/// is shown.
pub open spec fn firsts(desc: Seq<u8>, n: nat) -> Seq<Seq<u8>>
    decreases n,
{
    if n == 0 {
        Seq::empty()
    } else {
        let p = firsts(desc, (n - 1) as nat);
        if seen_before(desc, n - 1) {
            p
        } else {
            p.push(face_of(desc, n - 1))
        }
    }
}

proof fn lemma_firsts(desc: Seq<u8>, n: nat)
    ensures
        forall|x: Seq<u8>| #[trigger] firsts(desc, n).contains(x) <==> exists|p: int| 0 <= p < n && #[trigger] face_of(desc, p) == x,
    decreases n,
{
    if n > 0 {
        lemma_firsts(desc, (n - 1) as nat);
        let prev = firsts(desc, (n - 1) as nat);
        let cur = firsts(desc, n);
        assert forall|x: Seq<u8>| #[trigger] cur.contains(x) <==> exists|p: int| 0 <= p < n && #[trigger] face_of(desc, p) == x by {
            if cur.contains(x) {
                let i = choose|i: int| 0 <= i < cur.len() && cur[i] == x;
                if i < prev.len() {
                    assert(prev[i] == x);
                    assert(prev.contains(x));
                } else {
                    assert(face_of(desc, n - 1) == x);
                }
            }
            if exists|p: int| 0 <= p < n && #[trigger] face_of(desc, p) == x {
                let p = choose|p: int| 0 <= p < n && #[trigger] face_of(desc, p) == x;
                if p < n - 1 {
                    assert(prev.contains(x));
                    let i = choose|i: int| 0 <= i < prev.len() && prev[i] == x;
                    assert(cur[i] == x);
                } else if seen_before(desc, n - 1) {
                    let q = choose|q: int| 0 <= q < n - 1 && #[trigger] face_of(desc, q) == face_of(desc, n - 1);
                    assert(prev.contains(x));
                    let i = choose|i: int| 0 <= i < prev.len() && prev[i] == x;
                    assert(cur[i] == x);
                } else {
                    assert(cur[cur.len() - 1] == x);
                }
            }
        }
    }
}

/// The contents of byte vectors.
pub open spec fn byte_views(v: Seq<Vec<u8>>) -> Seq<Seq<u8>> {
    v.map_values(|b: Vec<u8>| b@)
}

impl FaceCounts {
    /// How many tiles show a face of the cube described by its cells, each
    /// distinct face counted once.
    pub fn cube_total(&self, desc: &[u8]) -> (r: usize)
        requires
            self.wf(),
            desc@.len() >= 27,
        ensures
            r == distinct_total(desc@, self.faces(), 24),
    {
        let mut seen: Vec<Vec<u8>> = Vec::new();
        let mut sum: usize = 0;
        let mut o: usize = 0;
        proof {
            assert(byte_views(seen@) =~= firsts(desc@, 0));
        }
        while o < 24
            invariant
                self.wf(),
                desc@.len() >= 27,
                o <= 24,
                sum == distinct_total(desc@, self.faces(), o as nat),
                byte_views(seen@) == firsts(desc@, o as nat),
            decreases 24 - o,
        {
            let f = read_face(desc, o);
            let v = self.count_of(f.as_slice());
            let mut found = false;
            let mut j: usize = 0;
            while j < seen.len()
                invariant
                    j <= seen@.len(),
                    found == exists|q: int| 0 <= q < j && #[trigger] seen@[q]@ == f@,
                decreases seen@.len() - j,
            {
                if same_bytes(seen[j].as_slice(), f.as_slice()) {
                    found = true;
                }
                j = j + 1;
            }
            proof {
                lemma_distinct_total_bound(desc@, self.faces(), (o + 1) as nat);
                assert((o + 1) * self.faces().len() <= 24 * self.faces().len()) by (nonlinear_arith)
                    requires
                        o + 1 <= 24,
                ;
                lemma_firsts(desc@, o as nat);
                let fs = firsts(desc@, o as nat);
                assert(found == fs.contains(f@)) by {
                    if found {
                        let q = choose|q: int| 0 <= q < j && #[trigger] seen@[q]@ == f@;
                        assert(fs[q] == f@);
                    }
                    if fs.contains(f@) {
                        let q = choose|q: int| 0 <= q < fs.len() && fs[q] == f@;
                        assert(seen@[q]@ == f@);
                    }
                }
                assert(found == seen_before(desc@, o as int));
            }
            if !found {
                seen.push(f);
                sum = sum + v;
                proof {
                    assert(byte_views(seen@) =~= firsts(desc@, (o + 1) as nat));
                }
            }
            o = o + 1;
        }
        sum
    }
}

/// The bytes of `s` other than spaces.
pub open spec fn without_spaces(s: Seq<u8>) -> Seq<u8>
    decreases s.len(),
{
    if s.len() == 0 {
        Seq::empty()
    } else {
        let p = without_spaces(s.drop_last());
        if s.last() == 32u8 {
            p
        } else {
            p.push(s.last())
        }
    }
}

/// Appends the bytes of `s` other than spaces to `out`.
pub fn push_without_spaces(out: &mut Vec<u8>, s: &[u8])
    ensures
        final(out)@ == old(out)@ + without_spaces(s@),
{
    let mut i: usize = 0;
    while i < s.len()
        invariant
            i <= s@.len(),
            out@ == old(out)@ + without_spaces(s@.take(i as int)),
        decreases s@.len() - i,
    {
        proof {
            assert(s@.take(i + 1).drop_last() =~= s@.take(i as int));
        }
        if s[i] != 32u8 {
            out.push(s[i]);
        }
        proof {
            let p = without_spaces(s@.take(i as int));
            if s@[i as int] != 32u8 {
                assert(old(out)@ + p.push(s@[i as int]) =~= (old(out)@ + p).push(s@[i as int]));
            }
        }
        i = i + 1;
    }
    proof {
        assert(s@.take(i as int) =~= s@);
    }
}

/// The cell at coordinates `(x, y, z)`, each from -1 to 1, of a cube whose
/// cells are numbered layer by layer (`x` fastest, then `y`, then `z`).
pub open spec fn cell_at(x: int, y: int, z: int) -> int {
    (x + 1) + 3 * (y + 1) + 9 * (z + 1)
}

/// Component `i` of a point.
pub open spec fn coord(v: (int, int, int), i: int) -> int {
    if i == 0 {
        v.0
    } else if i == 1 {
        v.1
    } else {
        v.2
    }
}

/// A rotation (or reflection) of the cube that permutes and flips axes:
/// component `r` of the image is `s_r` times component `p_r` of the point.
pub open spec fn turn(p: (int, int, int), s: (int, int, int), v: (int, int, int)) -> (int, int, int) {
    (s.0 * coord(v, p.0), s.1 * coord(v, p.1), s.2 * coord(v, p.2))
}

/// `p` is a permutation of the three axes and `s` flips each or not, with
/// the determinant 1 of a proper rotation (no mirror image).
pub open spec fn proper_turn(p: (int, int, int), s: (int, int, int)) -> bool {
    &&& 0 <= p.0 < 3 && 0 <= p.1 < 3 && 0 <= p.2 < 3
    &&& p.0 != p.1 && p.0 != p.2 && p.1 != p.2
    &&& (s.0 == 1 || s.0 == -1) && (s.1 == 1 || s.1 == -1) && (s.2 == 1 || s.2 == -1)
    &&& (if (p.0 == 0 && p.1 == 1) || (p.0 == 1 && p.1 == 2) || (p.0 == 2 && p.1 == 0) { 1int } else { -1int }) * s.0 * s.1 * s.2
        == 1
}

/// Where cell `k` (row by row) of the face in front, the face `y == -1`
/// read with `x` across and `z` down, lies.
pub open spec fn front(k: int) -> (int, int, int) {
    (k % 3 - 1, -1, k / 3 - 1)
}

/// Cell `k` of orientation `o` is where the front face's cell `k` goes
/// when the cube is turned by `(p, s)`.
pub open spec fn reads(o: int, p: (int, int, int), s: (int, int, int), k: int) -> bool {
    let w = turn(p, s, front(k));
    face_table()[o][k] == cell_at(w.0, w.1, w.2)
}

/// Orientation `o` shows the front face of the cube turned by `(p, s)`.
pub open spec fn shows(o: int, p: (int, int, int), s: (int, int, int)) -> bool {
    &&& reads(o, p, s, 0) && reads(o, p, s, 1) && reads(o, p, s, 2)
    &&& reads(o, p, s, 3) && reads(o, p, s, 4) && reads(o, p, s, 5)
    &&& reads(o, p, s, 6) && reads(o, p, s, 7) && reads(o, p, s, 8)
}

/// The orientation whose first two cells are `a` and `b`.
spec fn row_index(a: int, b: int) -> int {
    if a == 0 && b == 1 {
        0
    } else if a == 0 && b == 3 {
        1
    } else if a == 0 && b == 9 {
        2
    } else if a == 2 && b == 1 {
        3
    } else if a == 2 && b == 5 {
        4
    } else if a == 2 && b == 11 {
        5
    } else if a == 6 && b == 3 {
        6
    } else if a == 6 && b == 7 {
        7
    } else if a == 6 && b == 15 {
        8
    } else if a == 8 && b == 5 {
        9
    } else if a == 8 && b == 7 {
        10
    } else if a == 8 && b == 17 {
        11
    } else if a == 18 && b == 9 {
        12
    } else if a == 18 && b == 19 {
        13
    } else if a == 18 && b == 21 {
        14
    } else if a == 20 && b == 11 {
        15
    } else if a == 20 && b == 19 {
        16
    } else if a == 20 && b == 23 {
        17
    } else if a == 24 && b == 15 {
        18
    } else if a == 24 && b == 21 {
        19
    } else if a == 24 && b == 25 {
        20
    } else if a == 26 && b == 17 {
        21
    } else if a == 26 && b == 23 {
        22
    } else if a == 26 && b == 25 {
        23
    } else {
        24
    }
}

/// Orientation `o` shows the front face of the cube under some proper
/// rotation.
pub open spec fn shown_by_turn(o: int) -> bool {
    exists|p: (int, int, int), s: (int, int, int)| proper_turn(p, s) && #[trigger] shows(o, p, s)
}

/// The orientations are exactly the 24 rotations of the cube: each reads
/// the front face of the cube under a proper rotation, every proper
/// rotation is read by one of them, and no two read the same cells.
pub proof fn lemma_faces_are_rotations()
    ensures
        face_table().len() == 24,
        forall|o: int| 0 <= o < 24 ==> #[trigger] shown_by_turn(o),
        forall|p: (int, int, int), s: (int, int, int)| proper_turn(p, s) ==> exists|o: int| 0 <= o < 24 && #[trigger] shows(o, p, s),
        forall|o1: int, o2: int| 0 <= o1 < o2 < 24 ==> face_table()[o1] != face_table()[o2],
{
    assert(shows(0, (0int, 1int, 2int), (1int, 1int, 1int)));
    assert(shows(1, (2int, 0int, 1int), (1int, 1int, 1int)));
    assert(shows(2, (1int, 2int, 0int), (1int, 1int, 1int)));
    assert(shows(3, (0int, 2int, 1int), (-1int, 1int, 1int)));
    assert(shows(4, (1int, 0int, 2int), (-1int, 1int, 1int)));
    assert(shows(5, (2int, 1int, 0int), (-1int, 1int, 1int)));
    assert(shows(6, (1int, 0int, 2int), (1int, -1int, 1int)));
    assert(shows(7, (0int, 2int, 1int), (1int, -1int, 1int)));
    assert(shows(8, (2int, 1int, 0int), (1int, -1int, 1int)));
    assert(shows(9, (2int, 0int, 1int), (-1int, -1int, 1int)));
    assert(shows(10, (0int, 1int, 2int), (-1int, -1int, 1int)));
    assert(shows(11, (1int, 2int, 0int), (-1int, -1int, 1int)));
    assert(shows(12, (2int, 1int, 0int), (1int, 1int, -1int)));
    assert(shows(13, (0int, 2int, 1int), (1int, 1int, -1int)));
    assert(shows(14, (1int, 0int, 2int), (1int, 1int, -1int)));
    assert(shows(15, (1int, 2int, 0int), (-1int, 1int, -1int)));
    assert(shows(16, (0int, 1int, 2int), (-1int, 1int, -1int)));
    assert(shows(17, (2int, 0int, 1int), (-1int, 1int, -1int)));
    assert(shows(18, (1int, 2int, 0int), (1int, -1int, -1int)));
    assert(shows(19, (2int, 0int, 1int), (1int, -1int, -1int)));
    assert(shows(20, (0int, 1int, 2int), (1int, -1int, -1int)));
    assert(shows(21, (2int, 1int, 0int), (-1int, -1int, -1int)));
    assert(shows(22, (1int, 0int, 2int), (-1int, -1int, -1int)));
    assert(shows(23, (0int, 2int, 1int), (-1int, -1int, -1int)));
    assert forall|o: int| 0 <= o < 24 implies #[trigger] shown_by_turn(o) by {
        if o == 0 { assert(proper_turn((0int, 1int, 2int), (1int, 1int, 1int)) && shows(0, (0int, 1int, 2int), (1int, 1int, 1int))); }
        if o == 1 { assert(proper_turn((2int, 0int, 1int), (1int, 1int, 1int)) && shows(1, (2int, 0int, 1int), (1int, 1int, 1int))); }
        if o == 2 { assert(proper_turn((1int, 2int, 0int), (1int, 1int, 1int)) && shows(2, (1int, 2int, 0int), (1int, 1int, 1int))); }
        if o == 3 { assert(proper_turn((0int, 2int, 1int), (-1int, 1int, 1int)) && shows(3, (0int, 2int, 1int), (-1int, 1int, 1int))); }
        if o == 4 { assert(proper_turn((1int, 0int, 2int), (-1int, 1int, 1int)) && shows(4, (1int, 0int, 2int), (-1int, 1int, 1int))); }
        if o == 5 { assert(proper_turn((2int, 1int, 0int), (-1int, 1int, 1int)) && shows(5, (2int, 1int, 0int), (-1int, 1int, 1int))); }
        if o == 6 { assert(proper_turn((1int, 0int, 2int), (1int, -1int, 1int)) && shows(6, (1int, 0int, 2int), (1int, -1int, 1int))); }
        if o == 7 { assert(proper_turn((0int, 2int, 1int), (1int, -1int, 1int)) && shows(7, (0int, 2int, 1int), (1int, -1int, 1int))); }
        if o == 8 { assert(proper_turn((2int, 1int, 0int), (1int, -1int, 1int)) && shows(8, (2int, 1int, 0int), (1int, -1int, 1int))); }
        if o == 9 { assert(proper_turn((2int, 0int, 1int), (-1int, -1int, 1int)) && shows(9, (2int, 0int, 1int), (-1int, -1int, 1int))); }
        if o == 10 { assert(proper_turn((0int, 1int, 2int), (-1int, -1int, 1int)) && shows(10, (0int, 1int, 2int), (-1int, -1int, 1int))); }
        if o == 11 { assert(proper_turn((1int, 2int, 0int), (-1int, -1int, 1int)) && shows(11, (1int, 2int, 0int), (-1int, -1int, 1int))); }
        if o == 12 { assert(proper_turn((2int, 1int, 0int), (1int, 1int, -1int)) && shows(12, (2int, 1int, 0int), (1int, 1int, -1int))); }
        if o == 13 { assert(proper_turn((0int, 2int, 1int), (1int, 1int, -1int)) && shows(13, (0int, 2int, 1int), (1int, 1int, -1int))); }
        if o == 14 { assert(proper_turn((1int, 0int, 2int), (1int, 1int, -1int)) && shows(14, (1int, 0int, 2int), (1int, 1int, -1int))); }
        if o == 15 { assert(proper_turn((1int, 2int, 0int), (-1int, 1int, -1int)) && shows(15, (1int, 2int, 0int), (-1int, 1int, -1int))); }
        if o == 16 { assert(proper_turn((0int, 1int, 2int), (-1int, 1int, -1int)) && shows(16, (0int, 1int, 2int), (-1int, 1int, -1int))); }
        if o == 17 { assert(proper_turn((2int, 0int, 1int), (-1int, 1int, -1int)) && shows(17, (2int, 0int, 1int), (-1int, 1int, -1int))); }
        if o == 18 { assert(proper_turn((1int, 2int, 0int), (1int, -1int, -1int)) && shows(18, (1int, 2int, 0int), (1int, -1int, -1int))); }
        if o == 19 { assert(proper_turn((2int, 0int, 1int), (1int, -1int, -1int)) && shows(19, (2int, 0int, 1int), (1int, -1int, -1int))); }
        if o == 20 { assert(proper_turn((0int, 1int, 2int), (1int, -1int, -1int)) && shows(20, (0int, 1int, 2int), (1int, -1int, -1int))); }
        if o == 21 { assert(proper_turn((2int, 1int, 0int), (-1int, -1int, -1int)) && shows(21, (2int, 1int, 0int), (-1int, -1int, -1int))); }
        if o == 22 { assert(proper_turn((1int, 0int, 2int), (-1int, -1int, -1int)) && shows(22, (1int, 0int, 2int), (-1int, -1int, -1int))); }
        if o == 23 { assert(proper_turn((0int, 2int, 1int), (-1int, -1int, -1int)) && shows(23, (0int, 2int, 1int), (-1int, -1int, -1int))); }
    }
    assert forall|p: (int, int, int), s: (int, int, int)| proper_turn(p, s) implies exists|o: int| 0 <= o < 24 && #[trigger] shows(o, p, s) by {
        if p == (0int, 1int, 2int) && s == (1int, 1int, 1int) { assert(shows(0, p, s)); }
        if p == (2int, 0int, 1int) && s == (1int, 1int, 1int) { assert(shows(1, p, s)); }
        if p == (1int, 2int, 0int) && s == (1int, 1int, 1int) { assert(shows(2, p, s)); }
        if p == (0int, 2int, 1int) && s == (-1int, 1int, 1int) { assert(shows(3, p, s)); }
        if p == (1int, 0int, 2int) && s == (-1int, 1int, 1int) { assert(shows(4, p, s)); }
        if p == (2int, 1int, 0int) && s == (-1int, 1int, 1int) { assert(shows(5, p, s)); }
        if p == (1int, 0int, 2int) && s == (1int, -1int, 1int) { assert(shows(6, p, s)); }
        if p == (0int, 2int, 1int) && s == (1int, -1int, 1int) { assert(shows(7, p, s)); }
        if p == (2int, 1int, 0int) && s == (1int, -1int, 1int) { assert(shows(8, p, s)); }
        if p == (2int, 0int, 1int) && s == (-1int, -1int, 1int) { assert(shows(9, p, s)); }
        if p == (0int, 1int, 2int) && s == (-1int, -1int, 1int) { assert(shows(10, p, s)); }
        if p == (1int, 2int, 0int) && s == (-1int, -1int, 1int) { assert(shows(11, p, s)); }
        if p == (2int, 1int, 0int) && s == (1int, 1int, -1int) { assert(shows(12, p, s)); }
        if p == (0int, 2int, 1int) && s == (1int, 1int, -1int) { assert(shows(13, p, s)); }
        if p == (1int, 0int, 2int) && s == (1int, 1int, -1int) { assert(shows(14, p, s)); }
        if p == (1int, 2int, 0int) && s == (-1int, 1int, -1int) { assert(shows(15, p, s)); }
        if p == (0int, 1int, 2int) && s == (-1int, 1int, -1int) { assert(shows(16, p, s)); }
        if p == (2int, 0int, 1int) && s == (-1int, 1int, -1int) { assert(shows(17, p, s)); }
        if p == (1int, 2int, 0int) && s == (1int, -1int, -1int) { assert(shows(18, p, s)); }
        if p == (2int, 0int, 1int) && s == (1int, -1int, -1int) { assert(shows(19, p, s)); }
        if p == (0int, 1int, 2int) && s == (1int, -1int, -1int) { assert(shows(20, p, s)); }
        if p == (2int, 1int, 0int) && s == (-1int, -1int, -1int) { assert(shows(21, p, s)); }
        if p == (1int, 0int, 2int) && s == (-1int, -1int, -1int) { assert(shows(22, p, s)); }
        if p == (0int, 2int, 1int) && s == (-1int, -1int, -1int) { assert(shows(23, p, s)); }
        assert(p.0 == 0 || p.0 == 1 || p.0 == 2);
        assert(p.1 == 0 || p.1 == 1 || p.1 == 2);
        assert(p.2 == 0 || p.2 == 1 || p.2 == 2);
    }
    assert forall|o: int| 0 <= o < 24 implies row_index(#[trigger] face_table()[o][0], face_table()[o][1]) == o by {
        assert(o == 0 || o == 1 || o == 2 || o == 3 || o == 4 || o == 5 || o == 6 || o == 7 || o == 8 || o == 9 || o == 10
            || o == 11 || o == 12 || o == 13 || o == 14 || o == 15 || o == 16 || o == 17 || o == 18 || o == 19 || o == 20
            || o == 21 || o == 22 || o == 23);
    }
    assert forall|o1: int, o2: int| 0 <= o1 < o2 < 24 implies face_table()[o1] != face_table()[o2] by {
        if face_table()[o1] == face_table()[o2] {
            assert(row_index(face_table()[o1][0], face_table()[o1][1]) == o1);
            assert(row_index(face_table()[o2][0], face_table()[o2][1]) == o2);
        }
    }
}


} // verus!
