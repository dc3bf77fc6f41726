//! The grid of tiles: coordinates, adjacency, hints and mine placement.
use vstd::prelude::*;

use crate::count::{count_tiles, lemma_count_update};

verus! {

/// One cell of the grid.
#[derive(Clone, Copy, Debug, PartialEq, Eq, Structural)]
pub struct Tile {
    pub mined: bool,
    pub hidden: bool,
    pub marked: bool,
    /// Position in row-major order; never changes.
    pub id: usize,
}

/// What a revealed tile shows: the number of mined neighbours, or a mine.
#[derive(Clone, Copy, Debug, PartialEq, Eq, Structural)]
pub enum MineOrHint {
    Hint(u8),
    Mine,
}

/// A `width` by `height` grid, stored row by row.
pub struct Board {
    pub tiles: Vec<Tile>,
    pub width: usize,
    pub height: usize,
}

/// Whether cell `b` is one of the eight cells around cell `a` on a grid
/// `w` cells wide.
pub open spec fn adjacent(w: int, a: int, b: int) -> bool {
    &&& a != b
    &&& -1 <= b / w - a / w <= 1
    &&& -1 <= b % w - a % w <= 1
}

/// A cell around `a` lies at its row and column offset from `a`.
proof fn lemma_cell_of_neighbour(w: int, h: int, a: int, n: int)
    requires
        w > 0,
        h > 0,
        0 <= a,
        0 <= n < w * h,
        adjacent(w, a, n),
    ensures
        n == (a / w + (n / w - a / w)) * w + (a % w + (n % w - a % w)),
        n / w < h,
        0 <= n % w < w,
        a == (a / w) * w + a % w,
{
    vstd::arithmetic::div_mod::lemma_fundamental_div_mod(a, w);
    assert(a == (a / w) * w + a % w) by (nonlinear_arith)
        requires
            a == w * (a / w) + a % w,
    ;
    vstd::arithmetic::div_mod::lemma_fundamental_div_mod(n, w);
    vstd::arithmetic::div_mod::lemma_div_is_ordered(n, w * h - 1, w);
    vstd::arithmetic::div_mod::lemma_div_multiples_vanish_fancy(h - 1, w - 1, w);
    assert(w * h - 1 == w * (h - 1) + (w - 1)) by (nonlinear_arith);
    assert(n == (n / w) * w + n % w) by (nonlinear_arith)
        requires
            n == w * (n / w) + n % w,
    ;
}

/// A list that holds every in-grid cell at each of the eight offsets around
/// `id` holds every neighbour of `id`.
proof fn lemma_neighbours_complete(w: int, h: int, id: int, out: Seq<usize>, at: Seq<int>)
    requires
        w > 0,
        h > 0,
        0 <= id < w * h,
        at.len() == 8,
        (id / w) + 1 < h ==> 0 <= at[0] < out.len() && out[at[0]] == ((id / w) + 1) * w + (id % w),
        (id / w) > 0 ==> 0 <= at[1] < out.len() && out[at[1]] == ((id / w) - 1) * w + (id % w),
        (id % w) + 1 < w ==> 0 <= at[2] < out.len() && out[at[2]] == (id / w) * w + (id % w) + 1,
        (id % w) > 0 ==> 0 <= at[3] < out.len() && out[at[3]] == (id / w) * w + (id % w) - 1,
        (id / w) > 0 && (id % w) + 1 < w ==> 0 <= at[4] < out.len() && out[at[4]] == ((id / w) - 1) * w + (id % w) + 1,
        (id % w) > 0 && (id / w) + 1 < h ==> 0 <= at[5] < out.len() && out[at[5]] == ((id / w) + 1) * w + (id % w) - 1,
        (id / w) + 1 < h && (id % w) + 1 < w ==> 0 <= at[6] < out.len() && out[at[6]] == ((id / w) + 1) * w + (id % w) + 1,
        (id / w) > 0 && (id % w) > 0 ==> 0 <= at[7] < out.len() && out[at[7]] == ((id / w) - 1) * w + (id % w) - 1,
    ensures
        forall|n: usize|
            (n as int) < w * h && adjacent(w, id, n as int) ==> #[trigger] out.contains(n),
{
    let (ii, jj) = (id / w, id % w);
    assert forall|n: usize| (n as int) < w * h && adjacent(w, id, n as int) implies #[trigger] out.contains(
        n,
    ) by {
        lemma_cell_of_neighbour(w, h, id, n as int);
        let dr = (n as int) / w - ii;
        let dc = (n as int) % w - jj;
        if dr == 1 && dc == 0 {
            assert(out[at[0]] == n);
        } else if dr == -1 && dc == 0 {
            assert(out[at[1]] == n);
        } else if dr == 0 && dc == 1 {
            assert(out[at[2]] == n);
        } else if dr == 0 && dc == -1 {
            assert(out[at[3]] == n);
        } else if dr == -1 && dc == 1 {
            assert(out[at[4]] == n);
        } else if dr == 1 && dc == -1 {
            assert(out[at[5]] == n);
        } else if dr == 1 && dc == 1 {
            assert(out[at[6]] == n);
        } else {
            assert(out[at[7]] == n);
        }
    }
}

/// Counting the elements of a list without repeats that satisfy `p` counts
/// the elements of its set that satisfy `p`.
proof fn lemma_filter_len_to_set(s: Seq<usize>, p: spec_fn(usize) -> bool)
    requires
        s.no_duplicates(),
    ensures
        s.filter(p).len() == s.to_set().filter(p).len(),
        s.to_set().filter(p).finite(),
    decreases s.len(),
{
    if s.len() == 0 {
        assert(s.to_set().filter(p) =~= Set::empty());
    } else {
        let t = s.drop_last();
        let x = s.last();
        assert(s == t.push(x));
        assert(t.no_duplicates());
        lemma_filter_len_to_set(t, p);
        t.lemma_filter_len_push(p, x);
        assert(!t.contains(x));
        assert(s.to_set() =~= t.to_set().insert(x));
        if p(x) {
            assert(s.to_set().filter(p) =~= t.to_set().filter(p).insert(x));
        } else {
            assert(s.to_set().filter(p) =~= t.to_set().filter(p));
        }
    }
}

impl Board {
    /// The grid holds `width * height` tiles, each knowing its own position.
    pub open spec fn wf(&self) -> bool {
        &&& self.width > 0
        &&& self.height > 0
        &&& self.tiles@.len() == self.width * self.height
        &&& self.width * self.height <= usize::MAX
        &&& forall|i: int| 0 <= i < self.tiles@.len() ==> #[trigger] self.tiles@[i].id == i
    }

    /// The cells around `id` that lie on the grid.
    pub open spec fn neighbour_set(&self, id: int) -> Set<usize> {
        Set::new(
            |n: usize| (n as int) < self.tiles@.len() && adjacent(self.width as int, id, n as int),
        )
    }

    /// The numbers of mined, marked and hidden tiles.
    pub open spec fn mine_count(&self) -> nat {
        count_tiles(self.tiles@, |t: Tile| t.mined)
    }

    pub open spec fn marked_total(&self) -> nat {
        count_tiles(self.tiles@, |t: Tile| t.marked)
    }

    pub open spec fn hidden_total(&self) -> nat {
        count_tiles(self.tiles@, |t: Tile| t.hidden)
    }

    /// Every tile is hidden, unmarked and free of mines.
    pub open spec fn is_fresh(&self) -> bool {
        forall|i: int|
            0 <= i < self.tiles@.len() ==> !(#[trigger] self.tiles@[i]).mined
                && self.tiles@[i].hidden && !self.tiles@[i].marked
    }

    /// Tile `p` is revealed, free of mines, and has no mined neighbour.
    pub open spec fn is_open_empty(&self, p: usize) -> bool {
        &&& (p as int) < self.tiles@.len()
        &&& !self.tiles@[p as int].hidden
        &&& !self.tiles@[p as int].mined
        &&& self.hint(p as int) == 0
    }

    /// Every revealed tile without mines around it has all its neighbours
    /// revealed.
    pub open spec fn closed(&self) -> bool {
        forall|p: usize, n: usize|
            #![trigger self.is_open_empty(p), self.neighbour_set(p as int).contains(n)]
            self.is_open_empty(p) && self.neighbour_set(p as int).contains(n)
                ==> !self.tiles@[n as int].hidden
    }

    /// Boards of one shape with the same mines have the same hints.
    pub proof fn lemma_same_mines(&self, other: &Board)
        requires
            self.width == other.width,
            self.tiles@.len() == other.tiles@.len(),
            forall|i: int|
                0 <= i < self.tiles@.len() ==> (#[trigger] self.tiles@[i]).mined
                    == other.tiles@[i].mined,
        ensures
            forall|p: int| #[trigger] self.hint(p) == other.hint(p),
    {
        assert forall|p: int| #[trigger] self.hint(p) == other.hint(p) by {
            assert(self.neighbour_set(p) =~= other.neighbour_set(p));
            assert(self.neighbour_set(p).filter(|n: usize| self.is_mined(n)) =~= other.neighbour_set(
                p,
            ).filter(|n: usize| other.is_mined(n)));
        }
    }

    /// Closure survives any change that keeps the mines and reveals no less.
    pub proof fn lemma_closed_keeps(&self, before: &Board)
        requires
            before.closed(),
            self.width == before.width,
            self.tiles@.len() == before.tiles@.len(),
            forall|i: int|
                0 <= i < before.tiles@.len() ==> (#[trigger] self.tiles@[i]).mined
                    == before.tiles@[i].mined && (!before.tiles@[i].hidden
                    ==> !self.tiles@[i].hidden),
            forall|i: int|
                0 <= i < before.tiles@.len() && !(#[trigger] self.tiles@[i]).hidden
                    && before.tiles@[i].hidden ==> self.tiles@[i].mined || self.hint(i) != 0,
        ensures
            self.closed(),
    {
        self.lemma_same_mines(before);
        assert forall|p: usize, n: usize|
            self.is_open_empty(p) && #[trigger] self.neighbour_set(p as int).contains(n) implies !self.tiles@[n as int].hidden by {
            assert(before.is_open_empty(p));
            assert(before.neighbour_set(p as int).contains(n));
        }
    }

    /// Tile `n` holds a mine.
    pub open spec fn is_mined(&self, n: usize) -> bool {
        self.tiles@[n as int].mined
    }

    /// The number of mined cells around `id`.
    pub open spec fn hint(&self, id: int) -> nat {
        self.neighbour_set(id).filter(|n: usize| self.is_mined(n)).len()
    }

    /// What tile `id` shows once revealed.
    pub open spec fn classify(&self, id: int) -> MineOrHint {
        if self.tiles@[id].mined {
            MineOrHint::Mine
        } else {
            MineOrHint::Hint(self.hint(id) as u8)
        }
    }

    /// Linear index of the cell in row `i`, column `j`.
    pub fn pair_to_index(&self, i: usize, j: usize) -> (r: usize)
        requires
            self.wf(),
            i < self.height,
            j < self.width,
        ensures
            r == i * self.width + j,
            r < self.tiles@.len(),
            r / self.width == i,
            r % self.width == j,
    {
        let ghost w = self.width as int;
        proof {
            assert(i * w + j < w * self.height) by (nonlinear_arith)
                requires
                    i < self.height,
                    j < w,
            ;
            assert(i * w <= i * w + j);
            vstd::arithmetic::div_mod::lemma_fundamental_div_mod_converse(
                (i * w + j) as int,
                w,
                i as int,
                j as int,
            );
        }
        j + i * self.width
    }

    /// Row and column of the cell with linear index `id`.
    pub fn index_to_pair(&self, id: usize) -> (r: (usize, usize))
        requires
            self.wf(),
            id < self.tiles@.len(),
        ensures
            r.0 == id / self.width,
            r.1 == id % self.width,
            r.0 < self.height,
            r.1 < self.width,
    {
        proof {
            let w = self.width as int;
            vstd::arithmetic::div_mod::lemma_div_is_ordered(id as int, w * self.height - 1, w);
            vstd::arithmetic::div_mod::lemma_div_multiples_vanish_fancy(
                self.height - 1,
                w - 1,
                w,
            );
            assert(w * self.height - 1 == w * (self.height - 1) + (w - 1)) by (nonlinear_arith);
        }
        (id / self.width, id % self.width)
    }

    /// The cells around `id` that lie on the grid, each once.
    #[verifier::rlimit(100)]
    #[verifier::spinoff_prover]
    pub fn neighbours(&self, id: usize) -> (r: Vec<usize>)
        requires
            self.wf(),
            id < self.tiles@.len(),
        ensures
            forall|k: int|
                0 <= k < r@.len() ==> #[trigger] r@[k] < self.tiles@.len() && adjacent(
                    self.width as int,
                    id as int,
                    r@[k] as int,
                ),
            forall|n: usize|
                (n as int) < self.tiles@.len() && adjacent(self.width as int, id as int, n as int)
                    ==> #[trigger] r@.contains(n),
            r@.no_duplicates(),
            r@.to_set() == self.neighbour_set(id as int),
            r@.len() <= 8,
            self.width >= 2 && self.height >= 2 ==> r@.len() >= 3,
    {
        let (i, j) = self.index_to_pair(id);
        let mut out: Vec<usize> = Vec::new();
        // Where each present neighbour lands in `out`.
        let ghost mut at: Seq<int> = seq![0int, 0, 0, 0, 0, 0, 0, 0];
        if i + 1 < self.height {
            proof { at = at.update(0, out@.len() as int); }
            out.push(self.pair_to_index(i + 1, j));
        }
        if i > 0 {
            proof { at = at.update(1, out@.len() as int); }
            out.push(self.pair_to_index(i - 1, j));
        }
        if j + 1 < self.width {
            proof { at = at.update(2, out@.len() as int); }
            out.push(self.pair_to_index(i, j + 1));
        }
        if j > 0 {
            proof { at = at.update(3, out@.len() as int); }
            out.push(self.pair_to_index(i, j - 1));
        }
        if i > 0 && j + 1 < self.width {
            proof { at = at.update(4, out@.len() as int); }
            out.push(self.pair_to_index(i - 1, j + 1));
        }
        if j > 0 && i + 1 < self.height {
            proof { at = at.update(5, out@.len() as int); }
            out.push(self.pair_to_index(i + 1, j - 1));
        }
        if i + 1 < self.height && j + 1 < self.width {
            proof { at = at.update(6, out@.len() as int); }
            out.push(self.pair_to_index(i + 1, j + 1));
        }
        if i > 0 && j > 0 {
            proof { at = at.update(7, out@.len() as int); }
            out.push(self.pair_to_index(i - 1, j - 1));
        }
        proof {
            let w = self.width as int;
            let h = self.height as int;
            let (ii, jj) = (i as int, j as int);
            assert(ii + 1 < h ==> 0 <= at[0] < out@.len() && out@[at[0]] == (ii + 1) * w + jj);
            assert(ii > 0 ==> 0 <= at[1] < out@.len() && out@[at[1]] == (ii - 1) * w + jj);
            assert(jj + 1 < w ==> 0 <= at[2] < out@.len() && out@[at[2]] == ii * w + jj + 1);
            assert(jj > 0 ==> 0 <= at[3] < out@.len() && out@[at[3]] == ii * w + jj - 1);
            assert(ii > 0 && jj + 1 < w ==> 0 <= at[4] < out@.len() && out@[at[4]] == (ii - 1) * w + jj + 1);
            assert(jj > 0 && ii + 1 < h ==> 0 <= at[5] < out@.len() && out@[at[5]] == (ii + 1) * w + jj - 1);
            assert(ii + 1 < h && jj + 1 < w ==> 0 <= at[6] < out@.len() && out@[at[6]] == (ii + 1) * w + jj + 1);
            assert(ii > 0 && jj > 0 ==> 0 <= at[7] < out@.len() && out@[at[7]] == (ii - 1) * w + jj - 1);
            lemma_neighbours_complete(w, h, id as int, out@, at);
            assert(out@.to_set() =~= self.neighbour_set(id as int));
        }
        out
    }

    /// The number of mined neighbours of `id`, or `Mine` when `id` itself is
    /// mined.
    pub fn mine_or_hint(&self, id: usize) -> (r: MineOrHint)
        requires
            self.wf(),
            id < self.tiles@.len(),
        ensures
            r == self.classify(id as int),
            self.hint(id as int) <= 8,
            self.hint(id as int) == 0 ==> forall|n: usize|
                #[trigger] self.neighbour_set(id as int).contains(n) ==> !self.is_mined(n),
    {
        let nbrs = self.neighbours(id);
        let ghost pred = |n: usize| self.is_mined(n);
        let mut h: u8 = 0;
        let mut k: usize = 0;
        while k < nbrs.len()
            invariant
                self.wf(),
                pred == (|n: usize| self.is_mined(n)),
                k <= nbrs@.len() <= 8,
                forall|q: int| 0 <= q < nbrs@.len() ==> #[trigger] nbrs@[q] < self.tiles@.len(),
                h == nbrs@.take(k as int).filter(pred).len(),
                h <= k,
            decreases nbrs@.len() - k,
        {
            let n = nbrs[k];
            proof {
                assert(nbrs@.take(k + 1) == nbrs@.take(k as int).push(n));
                nbrs@.take(k as int).lemma_filter_len_push(pred, n);
                assert(pred(n) == self.tiles@[n as int].mined);
            }
            if self.tiles[n].mined {
                h = h + 1;
            }
            k = k + 1;
        }
        proof {
            assert(nbrs@.take(k as int) == nbrs@);
            lemma_filter_len_to_set(nbrs@, pred);
            if h == 0 {
                assert forall|n: usize|
                    #[trigger] self.neighbour_set(id as int).contains(n) implies !self.is_mined(n) by {
                    if self.is_mined(n) {
                        assert(self.neighbour_set(id as int).filter(pred).contains(n));
                        vstd::set_lib::lemma_set_empty_equivalency_len(
                            self.neighbour_set(id as int).filter(pred),
                        );
                    }
                }
            }
        }
        if self.tiles[id].mined {
            MineOrHint::Mine
        } else {
            MineOrHint::Hint(h)
        }
    }

    /// Lays a mine on each tile listed in `mines`, on a board without mines.
    pub fn place_mines_at(&mut self, mines: &Vec<usize>)
        requires
            old(self).wf(),
            forall|i: int| 0 <= i < old(self).tiles@.len() ==> !(#[trigger] old(self).tiles@[i]).mined,
            mines@.no_duplicates(),
            forall|k: int| 0 <= k < mines@.len() ==> #[trigger] mines@[k] < old(self).tiles@.len(),
        ensures
            final(self).wf(),
            final(self).width == old(self).width,
            final(self).height == old(self).height,
            final(self).tiles@.len() == old(self).tiles@.len(),
            forall|i: int|
                0 <= i < final(self).tiles@.len() ==> #[trigger] final(self).tiles@[i] == (Tile {
                    mined: mines@.contains(i as usize),
                    ..old(self).tiles@[i]
                }),
            final(self).mine_count() == mines@.len(),
    {
        let ghost start = self.tiles@;
        proof {
            crate::count::lemma_count_none(start, |t: Tile| t.mined);
        }
        let mut k: usize = 0;
        while k < mines.len()
            invariant
                self.wf(),
                self.width == old(self).width,
                self.height == old(self).height,
                start == old(self).tiles@,
                self.tiles@.len() == start.len(),
                k <= mines@.len(),
                mines@.no_duplicates(),
                forall|q: int| 0 <= q < mines@.len() ==> #[trigger] mines@[q] < start.len(),
                forall|i: int|
                    0 <= i < start.len() ==> #[trigger] self.tiles@[i] == (Tile {
                        mined: mines@.take(k as int).contains(i as usize),
                        ..start[i]
                    }),
                forall|i: int| 0 <= i < start.len() ==> !(#[trigger] start[i]).mined,
                self.mine_count() == k,
            decreases mines@.len() - k,
        {
            let m = mines[k];
            let mut t = self.tiles[m];
            proof {
                assert(mines@.take(k + 1) == mines@.take(k as int).push(m));
                assert(!mines@.take(k as int).contains(m));
                lemma_count_update(self.tiles@, |t: Tile| t.mined, m as int, Tile { mined: true, ..t });
            }
            t.mined = true;
            self.tiles.set(m, t);
            proof {
                assert forall|x: usize|
                    #[trigger] mines@.take(k + 1).contains(x) == (mines@.take(k as int).contains(x)
                        || x == m) by {
                    if x == m {
                        assert(mines@.take(k + 1)[k as int] == m);
                    }
                    if mines@.take(k as int).contains(x) {
                        let q = choose|q: int| 0 <= q < k && mines@.take(k as int)[q] == x;
                        assert(mines@.take(k + 1)[q] == x);
                    }
                }
            }
            k = k + 1;
        }
        proof {
            assert(mines@.take(k as int) == mines@);
        }
    }

    /// Uncovers every mined tile; with `except_marked`, mined tiles that are
    /// marked stay hidden.
    pub fn reveal_all_mines(&mut self, except_marked: bool)
        requires
            old(self).wf(),
        ensures
            final(self).wf(),
            final(self).width == old(self).width,
            final(self).height == old(self).height,
            final(self).tiles@.len() == old(self).tiles@.len(),
            forall|i: int|
                0 <= i < final(self).tiles@.len() ==> #[trigger] final(self).tiles@[i] == (
                if old(self).tiles@[i].mined && !(except_marked && old(self).tiles@[i].marked) {
                    Tile { hidden: false, ..old(self).tiles@[i] }
                } else {
                    old(self).tiles@[i]
                }),
    {
        let ghost start = self.tiles@;
        let mut k: usize = 0;
        while k < self.tiles.len()
            invariant
                self.wf(),
                self.width == old(self).width,
                self.height == old(self).height,
                start == old(self).tiles@,
                self.tiles@.len() == start.len(),
                k <= start.len(),
                forall|i: int|
                    0 <= i < start.len() ==> #[trigger] self.tiles@[i] == (
                    if i < k && start[i].mined && !(except_marked && start[i].marked) {
                        Tile { hidden: false, ..start[i] }
                    } else {
                        start[i]
                    }),
            decreases start.len() - k,
        {
            let mut t = self.tiles[k];
            if t.mined && !(except_marked && t.marked) {
                t.hidden = false;
                self.tiles.set(k, t);
            }
            k = k + 1;
        }
    }
}

} // verus!
