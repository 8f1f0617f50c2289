use vstd::prelude::*;

verus! {

/// A position on the integer plane: `(row, column)`.
pub type Cell = (int, int);

/// What lies beyond the edge of the grid.
#[derive(Debug, Clone, Copy, PartialEq, Eq, Structural)]
pub enum Boundary {
    /// Nothing: positions off the grid are dead for ever.
    Clamped,
    /// The opposite edge: the grid is a torus.
    Toroidal,
}

/// Row displacement of the `k`-th of the eight neighbours.
pub open spec fn row_offset(k: int) -> int {
    if k == 0 || k == 4 || k == 5 {
        1
    } else if k == 1 || k == 6 || k == 7 {
        -1
    } else {
        0
    }
}

/// Column displacement of the `k`-th of the eight neighbours.
pub open spec fn col_offset(k: int) -> int {
    if k == 2 || k == 4 || k == 6 {
        1
    } else if k == 3 || k == 5 || k == 7 {
        -1
    } else {
        0
    }
}

/// The neighbour index that undoes the displacement of index `k`.
pub open spec fn opposite(k: int) -> int {
    if k == 0 {
        1
    } else if k == 1 {
        0
    } else if k == 2 {
        3
    } else if k == 3 {
        2
    } else {
        11 - k
    }
}

/// Brings an index that left `0..n` by at most `n` back into it, entering
/// at the opposite end.
pub open spec fn wrap(x: int, n: int) -> int {
    if x < 0 {
        x + n
    } else if x >= n {
        x - n
    } else {
        x
    }
}

/// Whether `a` comes before `b` when the plane is read row by row.
pub open spec fn precedes(a: Cell, b: Cell) -> bool {
    a.0 < b.0 || (a.0 == b.0 && a.1 < b.1)
}

/// The geometry of a board: its extent and its boundary policy.
pub struct Shape {
    pub rows: int,
    pub cols: int,
    pub boundary: Boundary,
}

impl Shape {
    /// A board has at least one row and one column.
    pub open spec fn valid(self) -> bool {
        1 <= self.rows && 1 <= self.cols
    }

    /// Whether `p` is a cell of the board.
    pub open spec fn on_grid(self, p: Cell) -> bool {
        0 <= p.0 < self.rows && 0 <= p.1 < self.cols
    }

    /// The position of the `k`-th neighbour of `p`, for `k` in `0..8`.
    /// On a clamped board it may lie off the grid; on a torus a step over
    /// an edge re-enters at the opposite edge.
    pub open spec fn neighbor(self, p: Cell, k: int) -> Cell {
        let r = p.0 + row_offset(k);
        let c = p.1 + col_offset(k);
        match self.boundary {
            Boundary::Clamped => (r, c),
            Boundary::Toroidal => (wrap(r, self.rows), wrap(c, self.cols)),
        }
    }

    /// Whether `q` is one of the eight neighbours of `p`.
    pub open spec fn adjacent(self, p: Cell, q: Cell) -> bool {
        ||| self.neighbor(p, 0) == q
        ||| self.neighbor(p, 1) == q
        ||| self.neighbor(p, 2) == q
        ||| self.neighbor(p, 3) == q
        ||| self.neighbor(p, 4) == q
        ||| self.neighbor(p, 5) == q
        ||| self.neighbor(p, 6) == q
        ||| self.neighbor(p, 7) == q
    }

    /// The cells of the board that a change at `p` can affect: `p` itself
    /// and those of its neighbours that lie on the grid.
    pub open spec fn reach(self, p: Cell) -> Set<Cell> {
        Set::new(|q: Cell| self.on_grid(q) && (q == p || self.adjacent(p, q)))
    }

    /// All cells of the board.
    pub open spec fn cells(self) -> Set<Cell> {
        Set::new(|p: Cell| self.on_grid(p))
    }

    /// The number of cells of the board.
    pub open spec fn area(self) -> int {
        self.rows * self.cols
    }

    /// Stepping to a neighbour on the grid and back by the opposite
    /// displacement returns to the start.
    pub proof fn lemma_neighbor_round_trip(self, p: Cell, k: int)
        requires
            self.valid(),
            self.on_grid(p),
            0 <= k < 8,
            self.on_grid(self.neighbor(p, k)),
        ensures
            0 <= opposite(k) < 8,
            self.neighbor(self.neighbor(p, k), opposite(k)) == p,
    {
    }

    /// Being a neighbour is a symmetric relation between cells of the grid.
    pub proof fn lemma_adjacent_symmetric(self, p: Cell, q: Cell)
        requires
            self.valid(),
            self.on_grid(p),
            self.on_grid(q),
        ensures
            self.adjacent(p, q) == self.adjacent(q, p),
    {
        if self.adjacent(p, q) {
            let k = choose|k: int| 0 <= k < 8 && self.neighbor(p, k) == q;
            self.lemma_neighbor_round_trip(p, k);
        }
        if self.adjacent(q, p) {
            let k = choose|k: int| 0 <= k < 8 && self.neighbor(q, k) == p;
            self.lemma_neighbor_round_trip(q, k);
        }
    }

    /// At most nine cells are within reach of a position.
    pub proof fn lemma_reach_finite(self, p: Cell)
        ensures
            self.reach(p).finite(),
    {
        let around = set![
            p,
            self.neighbor(p, 0),
            self.neighbor(p, 1),
            self.neighbor(p, 2),
            self.neighbor(p, 3),
            self.neighbor(p, 4),
            self.neighbor(p, 5),
            self.neighbor(p, 6),
            self.neighbor(p, 7),
        ];
        assert(self.reach(p).subset_of(around));
        vstd::set_lib::lemma_len_subset(self.reach(p), around);
    }

    /// The cells of the first `r` rows.
    pub open spec fn rows_before(self, r: int) -> Set<Cell> {
        Set::new(|p: Cell| 0 <= p.0 < r && 0 <= p.1 < self.cols)
    }

    /// The first `r` rows hold `r * cols` cells.
    pub proof fn lemma_rows_before_len(self, r: int)
        requires
            0 <= r,
            0 <= self.cols,
        ensures
            self.rows_before(r).finite(),
            self.rows_before(r).len() == r * self.cols,
        decreases r,
    {
        if r == 0 {
            assert(self.rows_before(0) =~= Set::<Cell>::empty());
        } else {
            self.lemma_rows_before_len(r - 1);
            let line = Set::new(|p: Cell| p.0 == r - 1 && 0 <= p.1 < self.cols);
            let span = vstd::set_lib::set_int_range(0, self.cols);
            let place = |c: int| (r - 1, c);
            vstd::set_lib::lemma_int_range(0, self.cols);
            assert(span.map(place) =~= line) by {
                assert forall|p: Cell| line.contains(p) implies span.map(place).contains(p) by {
                    assert(span.contains(p.1) && place(p.1) == p);
                }
            }
            assert(vstd::relations::injective_on(place, span));
            vstd::set_lib::lemma_map_size(span, line, place);
            assert(self.rows_before(r) =~= self.rows_before(r - 1).union(line));
            assert(self.rows_before(r - 1).disjoint(line));
            vstd::set_lib::lemma_set_disjoint_lens(self.rows_before(r - 1), line);
            assert(r * self.cols == (r - 1) * self.cols + self.cols) by (nonlinear_arith);
        }
    }

    /// A board has `rows * cols` cells.
    pub proof fn lemma_cells_len(self)
        requires
            self.valid(),
        ensures
            self.cells().finite(),
            self.cells().len() == self.area(),
    {
        self.lemma_rows_before_len(self.rows);
        assert(self.cells() =~= self.rows_before(self.rows));
    }
}

} // verus!
