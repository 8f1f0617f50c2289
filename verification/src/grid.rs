use vstd::prelude::*;
use crate::cellset::{addressable, cell, CellSet, Coord};
use crate::error::GameError;
use crate::shape::{Boundary, Cell, Shape};

verus! {

/// Whether the eight positions around `c` can be written as coordinates.
pub open spec fn steppable(c: Coord) -> bool {
    i128::MIN < c.0 < i128::MAX && i128::MIN < c.1 < i128::MAX
}

/// The extent of a board and its boundary policy.
#[derive(Debug, Clone, Copy)]
pub struct Grid {
    rows: usize,
    cols: usize,
    boundary: Boundary,
}

impl View for Grid {
    type V = Shape;

    closed spec fn view(&self) -> Shape {
        Shape { rows: self.rows as int, cols: self.cols as int, boundary: self.boundary }
    }
}

impl Grid {
    #[verifier::type_invariant]
    spec fn inv(self) -> bool {
        self.rows >= 1 && self.cols >= 1
    }

    /// A grid of `rows` by `cols` cells. Both must be at least 1.
    pub fn new(rows: usize, cols: usize, boundary: Boundary) -> (res: Result<Grid, GameError>)
        ensures
            res is Err <==> rows == 0 || cols == 0,
            res matches Err(e) ==> e == GameError::InvalidDimension,
            res matches Ok(g) ==> g@ == (Shape { rows: rows as int, cols: cols as int, boundary }),
    {
        if rows == 0 || cols == 0 {
            Err(GameError::InvalidDimension)
        } else {
            Ok(Grid { rows, cols, boundary })
        }
    }

    /// Every cell of the grid can be held in a `CellSet`.
    pub proof fn lemma_addressable(self, p: Cell)
        requires
            self@.on_grid(p),
        ensures
            addressable(p),
    {
    }

    /// The number of rows.
    pub fn rows(&self) -> (n: usize)
        ensures
            n == self@.rows,
            self@.valid(),
    {
        proof {
            use_type_invariant(self);
        }
        self.rows
    }

    /// The number of columns.
    pub fn cols(&self) -> (n: usize)
        ensures
            n == self@.cols,
            self@.valid(),
    {
        proof {
            use_type_invariant(self);
        }
        self.cols
    }

    /// The boundary policy.
    pub fn boundary(&self) -> (b: Boundary)
        ensures
            b == self@.boundary,
    {
        self.boundary
    }

    /// Whether `c` names a cell of the grid.
    pub fn contains(&self, c: Coord) -> (b: bool)
        ensures
            b == self@.on_grid(cell(c)),
            b ==> addressable(cell(c)),
    {
        c.0 >= 0 && c.1 >= 0 && c.0 < self.rows as i128 && c.1 < self.cols as i128
    }

    /// The eight positions around `c`, in the order of the neighbour index.
    pub fn neighbors(&self, c: Coord) -> (out: [Coord; 8])
        requires
            steppable(c),
        ensures
            forall|k: int| 0 <= k < 8 ==> cell(#[trigger] out@[k]) == self@.neighbor(cell(c), k),
    {
        let x: i128 = c.0;
        let y: i128 = c.1;
        let out = [
            (self.row(x + 1), self.col(y)),
            (self.row(x - 1), self.col(y)),
            (self.row(x), self.col(y + 1)),
            (self.row(x), self.col(y - 1)),
            (self.row(x + 1), self.col(y + 1)),
            (self.row(x + 1), self.col(y - 1)),
            (self.row(x - 1), self.col(y + 1)),
            (self.row(x - 1), self.col(y - 1)),
        ];
        out
    }

    /// The row index at which a step to row `x` arrives.
    fn row(&self, x: i128) -> (r: i128)
        ensures
            self@.boundary == Boundary::Clamped ==> r == x,
            self@.boundary == Boundary::Toroidal ==> r == crate::shape::wrap(x as int, self@.rows),
    {
        match self.boundary {
            Boundary::Clamped => x,
            Boundary::Toroidal => fold(x, self.rows),
        }
    }

    /// The column index at which a step to column `y` arrives.
    fn col(&self, y: i128) -> (c: i128)
        ensures
            self@.boundary == Boundary::Clamped ==> c == y,
            self@.boundary == Boundary::Toroidal ==> c == crate::shape::wrap(y as int, self@.cols),
    {
        match self.boundary {
            Boundary::Clamped => y,
            Boundary::Toroidal => fold(y, self.cols),
        }
    }

    /// Adds to `cache` the cells within reach of the cell `c`.
    pub fn schedule(&self, cache: &mut CellSet, c: Coord)
        requires
            self@.on_grid(cell(c)),
        ensures
            final(cache)@ == old(cache)@.union(self@.reach(cell(c))),
    {
        let around = self.neighbors(c);
        let ghost p = cell(c);
        let ghost shape = self@;
        cache.insert(c);
        let mut k: usize = 0;
        while k < 8
            invariant
                k <= 8,
                shape == self@,
                p == cell(c),
                shape.on_grid(p),
                forall|i: int| 0 <= i < 8 ==> cell(#[trigger] around@[i]) == shape.neighbor(p, i),
                forall|q: Cell|
                    #![trigger cache@.contains(q)]
                    cache@.contains(q) <==> old(cache)@.contains(q) || q == p || (shape.on_grid(q)
                        && exists|i: int| 0 <= i < k && #[trigger] shape.neighbor(p, i) == q),
            decreases 8 - k,
        {
            let n = around[k];
            let ghost before = cache@;
            if self.contains(n) {
                cache.insert(n);
            }
            k = k + 1;
            proof {
                let m = shape.neighbor(p, k - 1);
                assert(cell(around@[k - 1]) == m);
                assert forall|q: Cell|
                    #![trigger cache@.contains(q)]
                    cache@.contains(q) <==> old(cache)@.contains(q) || q == p || (shape.on_grid(q)
                        && exists|i: int| 0 <= i < k && #[trigger] shape.neighbor(p, i) == q) by {
                    if shape.on_grid(q) && exists|i: int|
                        0 <= i < k && #[trigger] shape.neighbor(p, i) == q {
                        let i = choose|i: int| 0 <= i < k && #[trigger] shape.neighbor(p, i) == q;
                        if i < k - 1 {
                            assert(before.contains(q));
                        } else {
                            assert(q == m);
                        }
                    }
                    if before.contains(q) && !old(cache)@.contains(q) && q != p {
                        let i = choose|i: int| 0 <= i < k - 1 && #[trigger] shape.neighbor(p, i) == q;
                        assert(0 <= i < k && shape.neighbor(p, i) == q);
                    }
                }
            }
        }
        proof {
            let goal = old(cache)@.union(shape.reach(p));
            assert forall|q: Cell| cache@.contains(q) == goal.contains(q) by {
                if shape.on_grid(q) && shape.adjacent(p, q) {
                    let i = choose|i: int| 0 <= i < 8 && shape.neighbor(p, i) == q;
                    assert(0 <= i < k && shape.neighbor(p, i) == q);
                }
            }
            assert(cache@ =~= goal);
        }
    }
}

/// `x` brought back into `0..n` when it left it by at most `n`.
fn fold(x: i128, n: usize) -> (r: i128)
    ensures
        r == crate::shape::wrap(x as int, n as int),
{
    if x < 0 {
        x + n as i128
    } else if x >= n as i128 {
        x - n as i128
    } else {
        x
    }
}

} // verus!
