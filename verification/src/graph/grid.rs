//! A grid of open and blocked cells as a graph: the open cells next to an
//! open cell are its neighbours.

use super::Graph;
use vstd::prelude::*;

verus! {

/// A grid of `h` rows and `w` columns.
///
/// A cell is named by its row and its column. `g[x][y]` is `true` where the
/// cell `(x, y)` is open and `false` where it is blocked. An edge of cost one
/// leads from an open cell to each open cell beside it: above, below, left
/// and right of it, and, where `is_8way` is set, diagonally too. No edge
/// leaves a blocked cell.
#[derive(Debug)]
pub struct Grid {
    /// Whether the diagonal cells count as neighbours.
    pub is_8way: bool,
    /// The number of rows.
    pub h: usize,
    /// The number of columns.
    pub w: usize,
    /// For each row and column, whether the cell is open.
    pub g: Vec<Vec<bool>>,
}

/// The steps from a cell to the cells around it, as row and column offsets,
/// in the order in which the edges are listed.
pub open spec fn directions(is_8way: bool) -> Seq<(int, int)> {
    if is_8way {
        seq![(-1, -1), (-1, 0), (-1, 1), (0, -1), (0, 1), (1, -1), (1, 0), (1, 1)]
    } else {
        seq![(-1, 0), (0, -1), (0, 1), (1, 0)]
    }
}

/// The `k`th of the steps to the cells around a cell.
fn direction(is_8way: bool, k: usize) -> (d: (i32, i32))
    requires
        k < directions(is_8way).len(),
    ensures
        d.0 == directions(is_8way)[k as int].0,
        d.1 == directions(is_8way)[k as int].1,
        -1 <= d.0 <= 1,
        -1 <= d.1 <= 1,
{
    if is_8way {
        if k == 0 {
            (-1, -1)
        } else if k == 1 {
            (-1, 0)
        } else if k == 2 {
            (-1, 1)
        } else if k == 3 {
            (0, -1)
        } else if k == 4 {
            (0, 1)
        } else if k == 5 {
            (1, -1)
        } else if k == 6 {
            (1, 0)
        } else {
            (1, 1)
        }
    } else {
        if k == 0 {
            (-1, 0)
        } else if k == 1 {
            (0, -1)
        } else if k == 2 {
            (0, 1)
        } else {
            (1, 0)
        }
    }
}

/// The coordinate `x` moved by `d`, where that is a coordinate at all.
fn moved(x: usize, d: i32) -> (r: Option<usize>)
    requires
        -1 <= d <= 1,
    ensures
        r == if 0 <= x + d <= usize::MAX {
            Some((x + d) as usize)
        } else {
            None
        },
{
    if d < 0 {
        x.checked_sub(1)
    } else if d == 0 {
        Some(x)
    } else {
        x.checked_add(1)
    }
}

impl Grid {
    /// The cell in row `x` and column `y` is on the grid and open.
    pub open spec fn open_at(&self, x: int, y: int) -> bool {
        0 <= x < self.h && 0 <= y < self.w && self.g[x][y]
    }

    /// The edges that leave the open cell `i` along the first `k`
    /// directions.
    pub open spec fn neighbours(&self, i: (usize, usize), k: nat) -> Seq<((usize, usize), usize)>
        decreases k,
    {
        if k == 0 {
            Seq::empty()
        } else {
            let d = directions(self.is_8way)[k - 1];
            let before = self.neighbours(i, (k - 1) as nat);
            if self.open_at(i.0 + d.0, i.1 + d.1) {
                before.push((((i.0 + d.0) as usize, (i.1 + d.1) as usize), 1usize))
            } else {
                before
            }
        }
    }

    /// Every edge along the first `k` directions leads to a cell of the
    /// grid.
    proof fn lemma_neighbours(&self, i: (usize, usize), k: nat, j: int)
        requires
            0 <= j < self.neighbours(i, k).len(),
        ensures
            self.neighbours(i, k)[j].0.0 < self.h,
            self.neighbours(i, k)[j].0.1 < self.w,
        decreases k,
    {
        if k > 0 {
            if j < self.neighbours(i, (k - 1) as nat).len() {
                self.lemma_neighbours(i, (k - 1) as nat, j);
            }
        }
    }
}

impl Graph for Grid {
    type Idx = (usize, usize);

    type Cost = usize;

    /// There are `h` rows of `w` cells each, and the number of cells fits
    /// the machine's word.
    open spec fn wf(&self) -> bool {
        &&& self.g.len() == self.h
        &&& forall|x: int| 0 <= x < self.h ==> (#[trigger] self.g[x]).len() == self.w
        &&& self.h * self.w <= usize::MAX
    }

    open spec fn size(&self) -> nat {
        (self.h * self.w) as nat
    }

    open spec fn contains(&self, i: (usize, usize)) -> bool {
        i.0 < self.h && i.1 < self.w
    }

    open spec fn edges_spec(&self, i: (usize, usize)) -> Seq<((usize, usize), usize)> {
        if self.open_at(i.0 as int, i.1 as int) {
            self.neighbours(i, directions(self.is_8way).len())
        } else {
            Seq::empty()
        }
    }

    /// The cells are numbered row by row.
    open spec fn ordinal(&self, i: (usize, usize)) -> int {
        i.0 * self.w + i.1
    }

    proof fn lemma_ordinal(&self, i: (usize, usize), j: (usize, usize)) {
        let w = self.w as int;
        assert(0 <= i.0 * w + i.1 < self.h * w) by (nonlinear_arith)
            requires
                0 <= i.0 < self.h,
                0 <= i.1 < w,
        ;
        if self.ordinal(i) == self.ordinal(j) {
            vstd::arithmetic::div_mod::lemma_fundamental_div_mod_converse(
                self.ordinal(i),
                w,
                i.0 as int,
                i.1 as int,
            );
            vstd::arithmetic::div_mod::lemma_fundamental_div_mod_converse(
                self.ordinal(j),
                w,
                j.0 as int,
                j.1 as int,
            );
        }
    }

    proof fn lemma_ordinal_onto(&self, k: int) -> (i: (usize, usize)) {
        let w = self.w as int;
        let h = self.h as int;
        assert(w > 0 && 0 <= k / w < h && 0 <= k % w < w && (k / w) * w + k % w == k)
            by (nonlinear_arith)
            requires
                0 <= k < h * w,
                0 <= h,
                0 <= w,
        ;
        ((k / w) as usize, (k % w) as usize)
    }

    proof fn lemma_edges(&self, i: (usize, usize), k: int) {
        self.lemma_neighbours(i, directions(self.is_8way).len(), k);
    }

    fn len(&self) -> usize {
        self.h * self.w
    }

    fn edges(&self, i: (usize, usize)) -> Vec<((usize, usize), usize)> {
        let mut es: Vec<((usize, usize), usize)> = Vec::new();
        if !self.g[i.0][i.1] {
            return es;
        }
        let count: usize = if self.is_8way {
            8
        } else {
            4
        };
        let mut k: usize = 0;
        while k < count
            invariant
                self.wf(),
                k <= count,
                count == directions(self.is_8way).len(),
                es@ == self.neighbours(i, k as nat),
            decreases count - k,
        {
            let d = direction(self.is_8way, k);
            if let Some(nx) = moved(i.0, d.0) {
                if let Some(ny) = moved(i.1, d.1) {
                    if nx < self.h && ny < self.w && self.g[nx][ny] {
                        es.push(((nx, ny), 1));
                    }
                }
            }
            k += 1;
        }
        es
    }

    fn idx_to_usize(&self, i: (usize, usize)) -> usize {
        proof {
            self.lemma_ordinal(i, i);
            assert(0 <= i.0 * self.w <= i.0 * self.w + i.1);
        }
        i.0 * self.w + i.1
    }
}

} // verus!
