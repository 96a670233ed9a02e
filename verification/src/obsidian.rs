//! Placing words of given lengths into a grid of free and blocked cells,
//! horizontally or vertically, by backtracking.
use vstd::prelude::*;
use vstd::relations::{sorted_by, total_ordering};
use crate::bitwords::{lemma_mask_set, lemma_mask_test, lemma_packed_set, lemma_zero_word, packed_bit, packed_bits, word_bit};

verus! {

/// A grid of bits filled cell by cell, packed 64 to a word; cell `(x, y)` is
/// bit `x + y * width`.
pub struct Bits {
    height: usize,
    width: usize,
    bits: Vec<u64>,
    bpos: usize,
}

impl View for Bits {
    type V = Seq<bool>;

    closed spec fn view(&self) -> Seq<bool> {
        packed_bits(self.bits@)
    }
}

impl Bits {
    pub closed spec fn height_spec(&self) -> usize {
        self.height
    }

    pub closed spec fn width_spec(&self) -> usize {
        self.width
    }

    /// How many cells have been pushed.
    pub closed spec fn count(&self) -> nat {
        if self.bpos == 0 {
            (self.bits@.len() * 64) as nat
        } else {
            ((self.bits@.len() - 1) * 64 + self.bpos) as nat
        }
    }

    /// The word count and the fill position agree, and no cell past the
    /// pushed ones is set.
    pub closed spec fn wf(&self) -> bool {
        &&& self.bpos < 64
        &&& (self.bpos != 0 ==> self.bits@.len() > 0)
        &&& forall|k: int| self.count() <= k < self@.len() ==> !(#[trigger] self@[k])
    }

    /// The number of 64-bit words the cells are packed in.
    pub closed spec fn word_count(&self) -> nat {
        self.bits@.len()
    }

    /// The bit of the last word that the next cell goes to.
    pub closed spec fn fill_pos(&self) -> nat {
        self.bpos as nat
    }

    /// The cells fill whole words but for the last: `n` cells take
    /// `(n + 63) / 64` words and the next one goes to bit `n % 64`.
    pub proof fn lemma_layout(&self)
        requires
            self.wf(),
        ensures
            self.word_count() == (self.count() + 63) / 64,
            self.fill_pos() == self.count() % 64,
    {
        let l = self.bits@.len();
        let p = self.bpos as nat;
        if p == 0 {
            assert((l * 64 + 63) / 64 == l && (l * 64) % 64 == 0) by (nonlinear_arith);
        } else {
            let n = ((l - 1) * 64 + p) as nat;
            assert((n + 63) / 64 == l && n % 64 == p) by (nonlinear_arith)
                requires
                    l >= 1,
                    0 < p < 64,
                    n == (l - 1) * 64 + p,
            ;
        }
    }

    /// The cells pushed so far are `vals`, in order.
    pub open spec fn holds_cells(&self, vals: Seq<bool>) -> bool {
        &&& self.count() == vals.len()
        &&& self@.len() >= vals.len()
        &&& forall|k: int| 0 <= k < vals.len() ==> #[trigger] self@[k] == vals[k]
    }

    /// An empty grid of the given size.
    pub fn new(height: usize, width: usize) -> (r: Self)
        ensures
            r.wf(),
            r.holds_cells(Seq::<bool>::empty()),
            r.height_spec() == height,
            r.width_spec() == width,
            r.count() == 0,
            r@.len() == 0,
    {
        let r = Self { height, width, bits: Vec::new(), bpos: 0 };
        proof {
            assert(r@ =~= Seq::<bool>::empty());
        }
        r
    }

    /// A copy of the grid.
    pub fn duplicate(&self) -> (r: Self)
        ensures
            r@ == self@,
            r.height_spec() == self.height_spec(),
            r.width_spec() == self.width_spec(),
            r.count() == self.count(),
            self.wf() ==> r.wf(),
    {
        let r = Self { height: self.height, width: self.width, bits: self.bits.clone(), bpos: self.bpos };
        proof {
            assert(r.bits@ =~= self.bits@);
        }
        r
    }

    /// Appends one cell.
    pub fn push(&mut self, val: bool)
        requires
            old(self).wf(),
        ensures
            final(self).wf(),
            final(self).height_spec() == old(self).height_spec(),
            final(self).width_spec() == old(self).width_spec(),
            final(self).count() == old(self).count() + 1,
            final(self)@.len() >= final(self).count(),
            forall|k: int| 0 <= k < old(self).count() ==> final(self)@[k] == old(self)@[k],
            final(self)@[old(self).count() as int] == val,
            forall|vals: Seq<bool>| #[trigger] old(self).holds_cells(vals) ==> final(self).holds_cells(vals.push(val)),
    {
        let ghost n = self.count();
        let ghost v0 = self@;
        if self.bpos == 0 {
            self.bits.push(0);
            proof {
                assert forall|k: int| 0 <= k < self@.len() implies #[trigger] self@[k] == (if k
                    < v0.len() {
                    v0[k]
                } else {
                    false
                }) by {
                    if k < v0.len() {
                        assert(self.bits@[k / 64] == old(self).bits@[k / 64]);
                    } else {
                        assert(self.bits@[k / 64] == 0);
                        lemma_zero_word((k % 64) as u64);
                    }
                }
            }
        }
        let ghost v1 = self@;
        if val {
            let last = self.bits.len() - 1;
            let w = self.bits[last] | (1u64 << (self.bpos as u64));
            proof {
                assert(n == last * 64 + self.bpos);
                assert(n / 64 == last && n % 64 == self.bpos) by (nonlinear_arith)
                    requires
                        n == last * 64 + self.bpos,
                        self.bpos < 64,
                ;
                lemma_packed_set(self.bits@, n as int);
            }
            self.bits.set(last, w);
        }
        self.bpos = (self.bpos + 1) % 64;
        proof {
            assert(self@.len() > n);
            if !val {
                assert(!v0[n as int] || n >= v0.len());
            }
        }
    }

    /// Whether cell `(x, y)` is set.
    pub fn get(&self, x: usize, y: usize) -> (r: bool)
        requires
            x + y * self.width_spec() < self@.len(),
            x + y * self.width_spec() <= usize::MAX,
        ensures
            r == self@[x + y * self.width_spec()],
    {
        let i = x + y * self.width;
        let ind = i / 64;
        let pos = (i % 64) as u64;
        proof {
            lemma_mask_test(self.bits@[ind as int], pos);
        }
        (self.bits[ind] & (1u64 << pos)) != 0
    }

    /// Sets cell `(x, y)`.
    pub fn set(&mut self, x: usize, y: usize)
        requires
            old(self).wf(),
            x + y * old(self).width_spec() < old(self).count(),
            x + y * old(self).width_spec() <= usize::MAX,
        ensures
            final(self).wf(),
            final(self).height_spec() == old(self).height_spec(),
            final(self).width_spec() == old(self).width_spec(),
            final(self).count() == old(self).count(),
            final(self)@ == old(self)@.update(x + y * old(self).width_spec(), true),
    {
        let i = x + y * self.width;
        let ind = i / 64;
        let pos = (i % 64) as u64;
        let w = self.bits[ind] | (1u64 << pos);
        proof {
            lemma_packed_set(self.bits@, i as int);
        }
        let ghost v0 = self@;
        self.bits.set(ind, w);
        proof {
            assert(self.bits@.len() == old(self).bits@.len());
            assert(self.count() == old(self).count());
            assert forall|k: int| self.count() <= k < self@.len() implies !(#[trigger] self@[k]) by {
                assert(self@[k] == v0[k]);
            }
        }
    }
}

/// The `l` cells from `(x, y)` rightwards are free.
pub open spec fn h_free(cells: Seq<bool>, w: int, x: int, y: int, l: int) -> bool {
    forall|i: int| 0 <= i < l ==> !(#[trigger] cells[x + i + y * w])
}

/// The `l` cells from `(x, y)` downwards are free.
pub open spec fn v_free(cells: Seq<bool>, w: int, x: int, y: int, l: int) -> bool {
    forall|i: int| 0 <= i < l ==> !(#[trigger] cells[x + (y + i) * w])
}

/// The grid with the `l` cells from `(x, y)` rightwards set.
pub open spec fn h_place(cells: Seq<bool>, w: int, x: int, y: int, l: int) -> Seq<bool> {
    Seq::new(cells.len(), |k: int| cells[k] || (x + y * w <= k < x + y * w + l))
}

/// Whether cell `k` is one of the `l` cells from `(x, y)` downwards.
pub open spec fn in_column_run(k: int, w: int, x: int, y: int, l: int) -> bool {
    exists|i: int| 0 <= i < l && k == #[trigger] (x + (y + i) * w)
}

/// The grid with the `l` cells from `(x, y)` downwards set.
pub open spec fn v_place(cells: Seq<bool>, w: int, x: int, y: int, l: int) -> Seq<bool> {
    Seq::new(cells.len(), |k: int| cells[k] || in_column_run(k, w, x, y, l))
}

/// Whether every word length in `lens` can be placed, in order, each on
/// free cells of an `h` by `w` grid, horizontally or vertically.
pub open spec fn can_place_all(cells: Seq<bool>, h: int, w: int, lens: Seq<usize>) -> bool
    decreases lens.len(),
{
    if lens.len() == 0 {
        true
    } else {
        let l = lens[0] as int;
        let rest = lens.drop_first();
        ||| (l <= w && exists|x: int, y: int|
            #![trigger h_free(cells, w, x, y, l)]
            0 <= y < h && 0 <= x <= w - l && h_free(cells, w, x, y, l) && can_place_all(
                h_place(cells, w, x, y, l),
                h,
                w,
                rest,
            ))
        ||| (l <= h && exists|x: int, y: int|
            #![trigger v_free(cells, w, x, y, l)]
            0 <= x < w && 0 <= y <= h - l && v_free(cells, w, x, y, l) && can_place_all(
                v_place(cells, w, x, y, l),
                h,
                w,
                rest,
            ))
    }
}

impl Bits {
    /// Whether the words of lengths `wlens` can all be placed (see
    /// `can_place_all`).
    pub fn solve(&self, wlens: &[usize]) -> (r: bool)
        requires
            self.wf(),
            self.height_spec() * self.width_spec() <= self.count(),
            self.height_spec() * self.width_spec() <= usize::MAX,
            self.width_spec() < usize::MAX,
            self.height_spec() < usize::MAX,
        ensures
            r == can_place_all(self@, self.height_spec() as int, self.width_spec() as int, wlens@),
        decreases wlens@.len(),
    {
        if wlens.len() == 0 {
            return true;
        }
        let wlen = wlens[0];
        let rest = vstd::slice::slice_subrange(wlens, 1, wlens.len());
        let ghost cells = self@;
        let ghost h = self.height as int;
        let ghost w = self.width as int;
        let ghost l = wlen as int;
        proof {
            assert(rest@ =~= wlens@.drop_first());
        }
        // horizontal
        if wlen <= self.width {
            let mut y: usize = 0;
            while y < self.height
                invariant
                    self.wf(),
                    cells == self@,
                    h == self.height_spec(),
                    w == self.width_spec(),
                    l == wlen,
                    wlen <= self.width_spec(),
                    self.height_spec() * self.width_spec() <= self.count(),
                    self.height_spec() * self.width_spec() <= usize::MAX,
                    self.width_spec() < usize::MAX,
                    self.height_spec() < usize::MAX,
                    wlens@.len() > 0,
                    wlens@[0] == wlen,
                    rest@ == wlens@.drop_first(),
                    y <= h,
                    forall|x2: int, y2: int|
                        #![trigger h_free(cells, w, x2, y2, l)]
                        0 <= y2 < y && 0 <= x2 <= w - l && h_free(cells, w, x2, y2, l)
                            ==> !can_place_all(h_place(cells, w, x2, y2, l), h, w, rest@),
                decreases h - y,
            {
                let mut x: usize = 0;
                while x < self.width + 1 - wlen
                    invariant
                        self.wf(),
                        cells == self@,
                        h == self.height_spec(),
                        w == self.width_spec(),
                        l == wlen,
                        wlen <= self.width_spec(),
                        self.height_spec() * self.width_spec() <= self.count(),
                        self.height_spec() * self.width_spec() <= usize::MAX,
                        self.width_spec() < usize::MAX,
                        self.height_spec() < usize::MAX,
                        wlens@.len() > 0,
                    wlens@[0] == wlen,
                    rest@ == wlens@.drop_first(),
                        y < h,
                        x <= w - l + 1,
                        forall|x2: int, y2: int|
                            #![trigger h_free(cells, w, x2, y2, l)]
                            ((0 <= y2 < y && 0 <= x2 <= w - l) || (y2 == y && 0 <= x2 < x))
                                && h_free(cells, w, x2, y2, l) ==> !can_place_all(
                                h_place(cells, w, x2, y2, l),
                                h,
                                w,
                                rest@,
                            ),
                    decreases w - l + 1 - x,
                {
                    proof {
                        assert((x + wlen) + y * w <= h * w) by (nonlinear_arith)
                            requires
                                x + wlen <= w,
                                y < h,
                        ;
                    }
                    // is any of the cells taken?
                    let mut blocked = false;
                    let mut i: usize = 0;
                    while i < wlen
                        invariant
                            self.wf(),
                            cells == self@,
                            w == self.width_spec(),
                            i <= wlen,
                            x + wlen <= w,
                            (x + wlen) + y * w <= self.height_spec() * self.width_spec(),
                            self.height_spec() * self.width_spec() <= self.count(),
                            self.height_spec() * self.width_spec() <= usize::MAX,
                            self.count() <= self@.len(),
                            blocked == !h_free(cells, w, x as int, y as int, i as int),
                        decreases wlen - i,
                    {
                        if self.get(x + i, y) {
                            blocked = true;
                        }
                        proof {
                            if !blocked {
                                assert forall|j: int| 0 <= j < i + 1 implies !(
                                #[trigger] cells[x + j + y * w]) by {
                                    if j == i {
                                        assert(cells[x + i + y * w] == self@[x + i + y * self.width_spec()]);
                                    }
                                }
                            } else {
                                if !h_free(cells, w, x as int, y as int, i as int) {
                                    let j = choose|j: int| 0 <= j < i && #[trigger] cells[x + j + y * w];
                                    assert(cells[x + j + y * w]);
                                }
                                assert(!h_free(cells, w, x as int, y as int, i + 1));
                            }
                        }
                        i = i + 1;
                    }
                    if !blocked {
                        let mut bits = self.duplicate();
                        let mut i: usize = 0;
                        while i < wlen
                            invariant
                                bits.wf(),
                                bits.height_spec() == h,
                                bits.width_spec() == w,
                                bits.count() == self.count(),
                                i <= wlen,
                                x + wlen <= w,
                                (x + wlen) + y * w <= h * w,
                                h * w <= bits.count(),
                                h * w <= usize::MAX,
                                bits@.len() == cells.len(),
                                forall|k: int| 0 <= k < cells.len() ==> #[trigger] bits@[k] == (cells[k] || (
                                x + y * w <= k < x + y * w + i)),
                            decreases wlen - i,
                        {
                            bits.set(x + i, y);
                            i = i + 1;
                        }
                        proof {
                            assert(bits@ =~= h_place(cells, w, x as int, y as int, l));
                            assert(self.count() <= self@.len());
                        }
                        if bits.solve(rest) {
                            proof {
                                assert(h_free(cells, w, x as int, y as int, l));
                            }
                            return true;
                        }
                    }
                    x = x + 1;
                }
                y = y + 1;
            }
        }
        // vertical
        if wlen <= self.height {
            let mut x: usize = 0;
            while x < self.width
                invariant
                    self.wf(),
                    cells == self@,
                    h == self.height_spec(),
                    w == self.width_spec(),
                    l == wlen,
                    wlen <= self.height_spec(),
                    self.height_spec() * self.width_spec() <= self.count(),
                    self.height_spec() * self.width_spec() <= usize::MAX,
                    self.width_spec() < usize::MAX,
                    self.height_spec() < usize::MAX,
                    wlens@.len() > 0,
                    wlens@[0] == wlen,
                    rest@ == wlens@.drop_first(),
                    x <= w,
                    forall|x2: int, y2: int|
                        #![trigger v_free(cells, w, x2, y2, l)]
                        0 <= x2 < x && 0 <= y2 <= h - l && v_free(cells, w, x2, y2, l)
                            ==> !can_place_all(v_place(cells, w, x2, y2, l), h, w, rest@),
                decreases w - x,
            {
                let mut y: usize = 0;
                while y < self.height + 1 - wlen
                    invariant
                        self.wf(),
                        cells == self@,
                        h == self.height_spec(),
                        w == self.width_spec(),
                        l == wlen,
                        wlen <= self.height_spec(),
                        self.height_spec() * self.width_spec() <= self.count(),
                        self.height_spec() * self.width_spec() <= usize::MAX,
                        self.width_spec() < usize::MAX,
                        self.height_spec() < usize::MAX,
                        wlens@.len() > 0,
                    wlens@[0] == wlen,
                    rest@ == wlens@.drop_first(),
                        x < w,
                        y <= h - l + 1,
                        forall|x2: int, y2: int|
                            #![trigger v_free(cells, w, x2, y2, l)]
                            ((0 <= x2 < x && 0 <= y2 <= h - l) || (x2 == x && 0 <= y2 < y))
                                && v_free(cells, w, x2, y2, l) ==> !can_place_all(
                                v_place(cells, w, x2, y2, l),
                                h,
                                w,
                                rest@,
                            ),
                    decreases h - l + 1 - y,
                {
                    let mut blocked = false;
                    let mut i: usize = 0;
                    while i < wlen
                        invariant
                            self.wf(),
                            cells == self@,
                            w == self.width_spec(),
                            h == self.height_spec(),
                            i <= wlen,
                            x < w,
                            y + wlen <= h,
                            self.height_spec() * self.width_spec() <= self.count(),
                            self.height_spec() * self.width_spec() <= usize::MAX,
                            self.count() <= self@.len(),
                            blocked == !v_free(cells, w, x as int, y as int, i as int),
                        decreases wlen - i,
                    {
                        proof {
                            assert(x + (y + i) * w < h * w) by (nonlinear_arith)
                                requires
                                    x < w,
                                    y + i < h,
                            ;
                        }
                        if self.get(x, y + i) {
                            blocked = true;
                        }
                        proof {
                            if !blocked {
                                assert forall|j: int| 0 <= j < i + 1 implies !(
                                #[trigger] cells[x + (y + j) * w]) by {
                                    if j == i {
                                        assert(cells[x + (y + i) * w] == self@[x + (y + i) * self.width_spec()]);
                                    }
                                }
                            } else {
                                if !v_free(cells, w, x as int, y as int, i as int) {
                                    let j = choose|j: int| 0 <= j < i && #[trigger] cells[x + (y + j) * w];
                                    assert(cells[x + (y + j) * w]);
                                }
                                assert(!v_free(cells, w, x as int, y as int, i + 1));
                            }
                        }
                        i = i + 1;
                    }
                    if !blocked {
                        let mut bits = self.duplicate();
                        let mut i: usize = 0;
                        while i < wlen
                            invariant
                                bits.wf(),
                                bits.height_spec() == h,
                                bits.width_spec() == w,
                                bits.count() == self.count(),
                                i <= wlen,
                                x < w,
                                y + wlen <= h,
                                h * w <= bits.count(),
                                h * w <= usize::MAX,
                                bits@.len() == cells.len(),
                                forall|k: int| 0 <= k < cells.len() ==> #[trigger] bits@[k] == (cells[k]
                                    || in_column_run(k, w, x as int, y as int, i as int)),
                            decreases wlen - i,
                        {
                            proof {
                                assert(x + (y + i) * w < h * w) by (nonlinear_arith)
                                    requires
                                        x < w,
                                        y + i < h,
                                ;
                            }
                            let ghost before = bits@;
                            bits.set(x, y + i);
                            proof {
                                assert forall|k: int| 0 <= k < cells.len() implies #[trigger] bits@[k]
                                    == (cells[k] || in_column_run(k, w, x as int, y as int, i + 1)) by {
                                    if in_column_run(k, w, x as int, y as int, i + 1) && !in_column_run(
                                        k,
                                        w,
                                        x as int,
                                        y as int,
                                        i as int,
                                    ) {
                                        let j = choose|j: int| 0 <= j < i + 1 && k == #[trigger] (x + (y + j) * w);
                                        assert(j == i);
                                    }
                                    if k == x + (y + i) * w {
                                        assert(in_column_run(k, w, x as int, y as int, i + 1));
                                    }
                                    if in_column_run(k, w, x as int, y as int, i as int) {
                                        let j = choose|j: int| 0 <= j < i && k == #[trigger] (x + (y + j) * w);
                                        assert(in_column_run(k, w, x as int, y as int, i + 1));
                                    }
                                }
                            }
                            i = i + 1;
                        }
                        proof {
                            assert(bits@ =~= v_place(cells, w, x as int, y as int, l));
                            assert(self.count() <= self@.len());
                        }
                        if bits.solve(rest) {
                            proof {
                                assert(v_free(cells, w, x as int, y as int, l));
                            }
                            return true;
                        }
                    }
                    y = y + 1;
                }
                x = x + 1;
            }
        }
        false
    }
}

impl Bits {
    /// How many cells have been pushed.
    pub fn cell_count(&self) -> (r: usize)
        requires
            self.wf(),
            self.count() <= usize::MAX,
        ensures
            r == self.count(),
    {
        if self.bpos == 0 {
            proof {
                assert(self.bits@.len() * 64 <= usize::MAX);
            }
            self.bits.len() * 64
        } else {
            proof {
                assert((self.bits@.len() - 1) * 64 + self.bpos <= usize::MAX);
            }
            (self.bits.len() - 1) * 64 + self.bpos
        }
    }
}

/// The cells of a block given as lines of `x` (taken) and other bytes
/// (free), line after line.
pub open spec fn cells_of(lines: Seq<Vec<u8>>) -> Seq<bool>
    decreases lines.len(),
{
    if lines.len() == 0 {
        Seq::empty()
    } else {
        cells_of(lines.drop_last()) + lines.last()@.map_values(|c: u8| c == 120u8)
    }
}

/// Every byte of every line is `x` (taken) or `d` (free).
pub open spec fn block_ok(lines: Seq<Vec<u8>>) -> bool {
    forall|j: int, i: int| 0 <= j < lines.len() && 0 <= i < lines[j]@.len() ==> #[trigger] lines[j]@[i] == 120u8 || lines[j]@[i]
        == 100u8
}

/// The grid of a block of `height` rows and `width` columns from its lines;
/// `None` where a byte is neither `x` nor `d`.
pub fn grid_from_lines(height: usize, width: usize, lines: &Vec<Vec<u8>>) -> (r: Option<Bits>)
    requires
        cells_of(lines@).len() <= usize::MAX,
    ensures
        r is None <==> !block_ok(lines@),
        r matches Some(b) ==> {
            &&& b.wf()
            &&& b.height_spec() == height
            &&& b.width_spec() == width
            &&& b.count() == cells_of(lines@).len()
            &&& b@.len() >= b.count()
            &&& forall|k: int| 0 <= k < b.count() ==> b@[k] == cells_of(lines@)[k]
        },
{
    let mut g = Bits::new(height, width);
    let mut j: usize = 0;
    while j < lines.len()
        invariant
            j <= lines@.len(),
            cells_of(lines@).len() <= usize::MAX,
            g.wf(),
            g.height_spec() == height,
            g.width_spec() == width,
            g.count() == cells_of(lines@.take(j as int)).len(),
            g@.len() >= g.count(),
            forall|k: int| 0 <= k < g.count() ==> g@[k] == cells_of(lines@.take(j as int))[k],
            block_ok(lines@.take(j as int)),
        decreases lines@.len() - j,
    {
        let line = &lines[j];
        let ghost before = cells_of(lines@.take(j as int));
        let ghost row = line@.map_values(|c: u8| c == 120u8);
        proof {
            assert(lines@.take(j + 1).drop_last() =~= lines@.take(j as int));
            assert(cells_of(lines@.take(j + 1)) == before + row);
            lemma_cells_prefix_len(lines@, j + 1);
        }
        let mut i: usize = 0;
        while i < line.len()
            invariant
                i <= line@.len(),
                j < lines@.len(),
                *line == lines@[j as int],
                row == line@.map_values(|c: u8| c == 120u8),
                before.len() + row.len() <= usize::MAX,
                g.wf(),
                g.height_spec() == height,
                g.width_spec() == width,
                g.count() == before.len() + i,
                g@.len() >= g.count(),
                forall|k: int| 0 <= k < before.len() ==> g@[k] == before[k],
                forall|k: int| 0 <= k < i ==> g@[before.len() + k] == row[k],
                forall|k: int| 0 <= k < i ==> line@[k] == 120u8 || line@[k] == 100u8,
            decreases line@.len() - i,
        {
            let c = line[i];
            if c != 120u8 && c != 100u8 {
                proof {
                    lemma_block_bad(lines@, j as int, i as int);
                }
                return None;
            }
            let ghost g0 = g@;
            let ghost n0 = g.count();
            g.push(c == 120u8);
            proof {
                assert forall|k: int| 0 <= k < i + 1 implies g@[before.len() + k] == row[k] by {
                    if k < i {
                        assert(g@[before.len() + k] == g0[before.len() + k]);
                    }
                }
            }
            i = i + 1;
        }
        proof {
            assert forall|k: int| 0 <= k < g.count() implies g@[k] == cells_of(lines@.take(j + 1))[k] by {
                if k >= before.len() {
                    assert(g@[before.len() + (k - before.len())] == row[k - before.len()]);
                }
            }
            assert(block_ok(lines@.take(j + 1))) by {
                assert forall|a: int, b: int| 0 <= a < lines@.take(j + 1).len() && 0 <= b < lines@.take(j + 1)[a]@.len() implies #[trigger] lines@.take(j + 1)[a]@[b] == 120u8 || lines@.take(j + 1)[a]@[b] == 100u8 by {
                    if a < j {
                        assert(lines@.take(j as int)[a] == lines@.take(j + 1)[a]);
                    }
                }
            }
        }
        j = j + 1;
    }
    proof {
        assert(lines@.take(j as int) =~= lines@);
    }
    Some(g)
}

/// The cells of the first lines are no more than those of all.
proof fn lemma_cells_prefix_len(lines: Seq<Vec<u8>>, n: int)
    requires
        0 <= n <= lines.len(),
    ensures
        cells_of(lines.take(n)).len() <= cells_of(lines).len(),
    decreases lines.len(),
{
    if n < lines.len() {
        assert(lines.drop_last().take(n) =~= lines.take(n));
        lemma_cells_prefix_len(lines.drop_last(), n);
    } else {
        assert(lines.take(n) =~= lines);
    }
}

/// A line with a bad byte makes the block bad.
proof fn lemma_block_bad(lines: Seq<Vec<u8>>, j: int, i: int)
    requires
        0 <= j < lines.len(),
        0 <= i < lines[j]@.len(),
        lines[j]@[i] != 120u8 && lines[j]@[i] != 100u8,
    ensures
        !block_ok(lines),
{
}

/// The order "not smaller than".
pub open spec fn ge_order() -> spec_fn(usize, usize) -> bool {
    |a: usize, b: usize| a >= b
}

/// Word lengths from the longest down.
pub fn longest_first(lens: &Vec<usize>) -> (r: Vec<usize>)
    ensures
        r@ == lens@.sort_by(ge_order()),
{
    let mut out: Vec<usize> = Vec::new();
    let mut i: usize = 0;
    proof {
        assert(lens@.take(0) =~= out@);
    }
    while i < lens.len()
        invariant
            i <= lens@.len(),
            sorted_by(out@, ge_order()),
            out@.to_multiset() == lens@.take(i as int).to_multiset(),
        decreases lens@.len() - i,
    {
        let x = lens[i];
        let mut pos: usize = 0;
        while pos < out.len() && out[pos] >= x
            invariant
                pos <= out@.len(),
                forall|k: int| 0 <= k < pos ==> #[trigger] out@[k] >= x,
            decreases out@.len() - pos,
        {
            pos = pos + 1;
        }
        let ghost o0 = out@;
        out.insert(pos, x);
        proof {
            broadcast use vstd::seq_lib::group_to_multiset_ensures;
            assert(sorted_by(out@, ge_order())) by {
                assert forall|a: int, b: int| 0 <= a < b < out@.len() implies #[trigger] ge_order()(out@[a], out@[b]) by {
                    if pos < o0.len() {
                        assert(o0[pos as int] < x);
                    }
                    if a < pos && b == pos {
                    } else if a == pos && b > pos {
                        assert(ge_order()(o0[pos as int], o0[b - 1]) || pos == b - 1);
                    } else if a < pos && b > pos {
                        assert(ge_order()(o0[a], o0[b - 1]));
                    } else if b < pos {
                        assert(ge_order()(o0[a], o0[b]));
                    } else {
                        assert(ge_order()(o0[a - 1], o0[b - 1]));
                    }
                }
            }
            assert(lens@.take(i + 1) =~= lens@.take(i as int).push(x));
        }
        i = i + 1;
    }
    proof {
        assert(total_ordering(ge_order()));
        assert(lens@.take(i as int) =~= lens@);
        lens@.lemma_sort_by_ensures(ge_order());
        vstd::seq_lib::lemma_sorted_unique(out@, lens@.sort_by(ge_order()), ge_order());
    }
    out
}

/// A word can only be placed if it fits the grid one way or the other:
/// every length of a placeable list is at most the width or the height.
pub proof fn lemma_placed_words_fit(cells: Seq<bool>, h: int, w: int, lens: Seq<usize>)
    requires
        can_place_all(cells, h, w, lens),
    ensures
        forall|i: int| 0 <= i < lens.len() ==> #[trigger] lens[i] <= w || lens[i] <= h,
    decreases lens.len(),
{
    if lens.len() > 0 {
        let l = lens[0] as int;
        let rest = lens.drop_first();
        if l <= w {
            let (x, y) = choose|x: int, y: int|
                0 <= y < h && 0 <= x <= w - l && h_free(cells, w, x, y, l) && can_place_all(h_place(cells, w, x, y, l), h, w, rest);
            if can_place_all(h_place(cells, w, x, y, l), h, w, rest) {
                lemma_placed_words_fit(h_place(cells, w, x, y, l), h, w, rest);
            }
            assert forall|i: int| 0 <= i < lens.len() implies #[trigger] lens[i] <= w || lens[i] <= h by {
                if i > 0 && can_place_all(h_place(cells, w, x, y, l), h, w, rest) {
                    assert(lens[i] == rest[i - 1]);
                }
                if i > 0 && !can_place_all(h_place(cells, w, x, y, l), h, w, rest) {
                    let (x2, y2) = choose|x2: int, y2: int|
                        0 <= x2 < w && 0 <= y2 <= h - l && v_free(cells, w, x2, y2, l) && can_place_all(
                            v_place(cells, w, x2, y2, l),
                            h,
                            w,
                            rest,
                        );
                    lemma_placed_words_fit(v_place(cells, w, x2, y2, l), h, w, rest);
                    assert(lens[i] == rest[i - 1]);
                }
            }
        } else {
            let (x, y) = choose|x: int, y: int|
                0 <= x < w && 0 <= y <= h - l && v_free(cells, w, x, y, l) && can_place_all(v_place(cells, w, x, y, l), h, w, rest);
            lemma_placed_words_fit(v_place(cells, w, x, y, l), h, w, rest);
            assert forall|i: int| 0 <= i < lens.len() implies #[trigger] lens[i] <= w || lens[i] <= h by {
                if i > 0 {
                    assert(lens[i] == rest[i - 1]);
                }
            }
        }
    }
}

/// On a grid with no cell taken, a single word that is no longer than the
/// width (or the height) can be placed.
pub proof fn lemma_one_word_fits_empty_grid(cells: Seq<bool>, h: int, w: int, l: usize)
    requires
        h >= 1,
        w >= 1,
        cells.len() == h * w,
        forall|k: int| 0 <= k < cells.len() ==> !(#[trigger] cells[k]),
        l <= w || l <= h,
    ensures
        can_place_all(cells, h, w, seq![l]),
{
    let lens = seq![l];
    assert(lens.drop_first() =~= Seq::<usize>::empty());
    assert(lens[0] == l);
    if l <= w {
        assert forall|i: int| 0 <= i < l implies !(#[trigger] cells[0 + i + 0 * w]) by {
            assert(0 + i + 0 * w == i);
            assert(i < h * w) by (nonlinear_arith)
                requires
                    i < l,
                    l <= w,
                    h >= 1,
            ;
        }
        assert(h_free(cells, w, 0, 0, l as int));
        assert(can_place_all(h_place(cells, w, 0, 0, l as int), h, w, lens.drop_first()));
    } else {
        assert forall|i: int| 0 <= i < l implies !(#[trigger] cells[0 + (0 + i) * w]) by {
            assert(0 <= i * w < h * w) by (nonlinear_arith)
                requires
                    0 <= i < l,
                    l <= h,
                    w >= 1,
            ;
        }
        assert(v_free(cells, w, 0, 0, l as int));
        assert(can_place_all(v_place(cells, w, 0, 0, l as int), h, w, lens.drop_first()));
    }
}

} // verus!
