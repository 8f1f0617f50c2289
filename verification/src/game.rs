use vstd::prelude::*;
use crate::cellset::{cell, CellSet, Coord};
use crate::error::GameError;
use crate::grid::{steppable, Grid};
use crate::shape::{Boundary, Cell, Shape};
use crate::world::{survives, World};

verus! {

/// A game of life on a bounded board: the live cells, the cells that the
/// next step has to look at, and the number of steps taken.
#[derive(Debug)]
pub struct Game {
    grid: Grid,
    space: CellSet,
    cache: CellSet,
    generation: usize,
}

impl View for Game {
    type V = World;

    closed spec fn view(&self) -> World {
        World {
            shape: self.grid@,
            live: self.space@,
            active: self.cache@,
            generation: self.generation as nat,
        }
    }
}

impl Game {
    #[verifier::type_invariant]
    spec fn inv(self) -> bool {
        self@.wf()
    }

    /// A board of `row` by `col` dead cells with clamped edges, at
    /// generation 0. Fails when a dimension is 0.
    pub fn new(row: usize, col: usize) -> (res: Result<Game, GameError>)
        ensures
            res is Err <==> row == 0 || col == 0,
            res matches Err(e) ==> e == GameError::InvalidDimension,
            res matches Ok(g) ==> g@.wf() && g@ == World::empty(
                Shape { rows: row as int, cols: col as int, boundary: Boundary::Clamped },
            ),
    {
        Game::with_boundary(row, col, Boundary::Clamped)
    }

    /// A board of `row` by `col` dead cells with the given boundary policy,
    /// at generation 0. Fails when a dimension is 0.
    pub fn with_boundary(row: usize, col: usize, boundary: Boundary) -> (res: Result<
        Game,
        GameError,
    >)
        ensures
            res is Err <==> row == 0 || col == 0,
            res matches Err(e) ==> e == GameError::InvalidDimension,
            res matches Ok(g) ==> g@.wf() && g@ == World::empty(
                Shape { rows: row as int, cols: col as int, boundary },
            ),
    {
        match Grid::new(row, col, boundary) {
            Err(e) => Err(e),
            Ok(grid) => {
                let game = Game { grid, space: CellSet::new(), cache: CellSet::new(), generation: 0 };
                Ok(game)
            },
        }
    }

    /// The number of live cells.
    pub fn alive(&self) -> (n: usize)
        ensures
            self@.wf(),
            n == self@.live.len(),
    {
        proof {
            use_type_invariant(self);
        }
        self.space.len()
    }

    /// The number of steps taken so far.
    pub fn generation(&self) -> (n: usize)
        ensures
            n == self@.generation,
    {
        self.generation
    }

    /// The number of rows and of columns.
    pub fn size(&self) -> (dims: (usize, usize))
        ensures
            self@.wf(),
            dims.0 == self@.shape.rows,
            dims.1 == self@.shape.cols,
    {
        proof {
            use_type_invariant(self);
        }
        (self.grid.rows(), self.grid.cols())
    }

    /// The boundary policy.
    pub fn boundary(&self) -> (b: Boundary)
        ensures
            b == self@.shape.boundary,
    {
        self.grid.boundary()
    }

    /// The number of cells that the next step will evaluate.
    pub fn cache_len(&self) -> (n: usize)
        ensures
            self@.wf(),
            n == self@.active.len(),
    {
        proof {
            use_type_invariant(self);
        }
        self.cache.len()
    }

    /// Whether the next step will evaluate the cell at `coord`.
    pub fn is_cached(&self, coord: Coord) -> (b: bool)
        ensures
            b == self@.active.contains(cell(coord)),
    {
        self.cache.contains(coord)
    }

    /// Whether the cell at `coord` is alive. A coordinate off the grid is
    /// dead.
    pub fn cell_state(&self, coord: Coord) -> (b: bool)
        ensures
            b == self@.live.contains(cell(coord)),
            !self@.shape.on_grid(cell(coord)) ==> !b,
    {
        proof {
            use_type_invariant(self);
        }
        self.space.contains(coord)
    }

    /// The eight positions around `coord`, in the order of the neighbour
    /// index.
    pub fn neighbors(&self, coord: Coord) -> (out: [Coord; 8])
        requires
            steppable(coord),
        ensures
            forall|k: int|
                0 <= k < 8 ==> cell(#[trigger] out@[k]) == self@.shape.neighbor(cell(coord), k),
    {
        self.grid.neighbors(coord)
    }

    /// 1 if the cell at `coord` is alive, else 0.
    fn lit(&self, coord: Coord) -> (n: u8)
        ensures
            n == self@.lit(cell(coord)),
    {
        if self.cell_state(coord) {
            1
        } else {
            0
        }
    }

    /// The state of the cell at `coord` in the next generation, and the
    /// eight positions around it if that state differs from the present one.
    pub fn next_cell_state(&self, coord: Coord) -> (res: (bool, Option<[Coord; 8]>))
        ensures
            res.0 == self@.next_alive(cell(coord)),
            res.1 is Some <==> self@.flips(cell(coord)),
            res.1 matches Some(around) ==> forall|k: int|
                0 <= k < 8 ==> cell(#[trigger] around@[k]) == self@.shape.neighbor(cell(coord), k),
    {
        if !self.grid.contains(coord) {
            return (false, None);
        }
        let around = self.grid.neighbors(coord);
        let count: u8 = self.lit(around[0]) + self.lit(around[1]) + self.lit(around[2]) + self.lit(
            around[3],
        ) + self.lit(around[4]) + self.lit(around[5]) + self.lit(around[6]) + self.lit(around[7]);
        let alive = self.cell_state(coord);
        let next = count == 3 || (alive && count == 2);
        assert(next == survives(alive, count as nat));
        if next != alive {
            (next, Some(around))
        } else {
            (next, None)
        }
    }

    /// Moves both sets out of the game, leaving a board on which nothing
    /// lives and nothing is scheduled.
    fn take_sets(&mut self) -> (sets: (CellSet, CellSet))
        ensures
            sets.0@ == old(self)@.live,
            sets.1@ == old(self)@.active,
            old(self)@.wf(),
            final(self)@ == (World {
                live: Set::<Cell>::empty(),
                active: Set::<Cell>::empty(),
                ..old(self)@
            }),
    {
        proof {
            use_type_invariant(&*self);
        }
        let mut space = CellSet::new();
        let mut cache = CellSet::new();
        proof {
            let barren = World { live: Set::<Cell>::empty(), ..self@ };
            assert forall|p: Cell| !#[trigger] barren.flips(p) by {
                barren.lemma_barren_is_quiet(p);
            }
        }
        std::mem::swap(&mut space, &mut self.space);
        proof {
            let barren = World { active: Set::<Cell>::empty(), ..self@ };
            assert forall|p: Cell| !#[trigger] barren.flips(p) by {
                barren.lemma_barren_is_quiet(p);
            }
        }
        std::mem::swap(&mut cache, &mut self.cache);
        (space, cache)
    }

    /// Moves both sets into a game on whose board nothing lives.
    fn put_sets(&mut self, space: CellSet, cache: CellSet)
        requires
            old(self)@.live == Set::<Cell>::empty(),
            (World { live: space@, active: cache@, ..old(self)@ }).wf(),
        ensures
            final(self)@ == (World { live: space@, active: cache@, ..old(self)@ }),
    {
        proof {
            use_type_invariant(&*self);
            let barren = World { active: cache@, ..self@ };
            assert forall|p: Cell| !#[trigger] barren.flips(p) by {
                barren.lemma_barren_is_quiet(p);
            }
        }
        self.cache = cache;
        self.space = space;
    }

    /// Makes the cell at `coord` alive or dead. Where that changes its
    /// state, the cell and its neighbours on the grid are scheduled for the
    /// next step. Fails, and changes nothing, when `coord` is off the grid.
    pub fn set_cell_state(&mut self, coord: Coord, alive: bool) -> (res: Result<(), GameError>)
        ensures
            final(self)@.wf(),
            final(self)@.shape == old(self)@.shape,
            final(self)@.generation == old(self)@.generation,
            res is Err <==> !old(self)@.shape.on_grid(cell(coord)),
            res matches Err(e) ==> e == GameError::OutOfBounds && final(self)@ == old(self)@,
            res is Ok ==> final(self)@.live == (if alive {
                old(self)@.live.insert(cell(coord))
            } else {
                old(self)@.live.remove(cell(coord))
            }),
            res is Ok ==> final(self)@.active == (if old(self)@.live.contains(cell(coord)) == alive {
                old(self)@.active
            } else {
                old(self)@.active.union(old(self)@.shape.reach(cell(coord)))
            }),
            res is Ok ==> final(self)@.live.len() == old(self)@.live.len() + (if alive && !old(
                self,
            )@.live.contains(cell(coord)) {
                1int
            } else if !alive && old(self)@.live.contains(cell(coord)) {
                -1int
            } else {
                0int
            }),
    {
        proof {
            use_type_invariant(&*self);
        }
        if !self.grid.contains(coord) {
            return Err(GameError::OutOfBounds);
        }
        if self.cell_state(coord) == alive {
            proof {
                let p = cell(coord);
                if alive {
                    assert(self@.live.insert(p) =~= self@.live);
                } else {
                    assert(self@.live.remove(p) =~= self@.live);
                }
            }
            return Ok(());
        }
        let ghost before = self@;
        let (mut space, mut cache) = self.take_sets();
        if alive {
            space.insert(coord);
        } else {
            space.remove(coord);
        }
        self.grid.schedule(&mut cache, coord);
        proof {
            let after = World { live: space@, active: cache@, ..self@ };
            before.lemma_set_wf(after, cell(coord));
        }
        self.put_sets(space, cache);
        Ok(())
    }

    /// Schedules for the next step those of `coords` that name cells of the
    /// grid.
    pub fn insert_cache(&mut self, coords: &[Coord])
        ensures
            final(self)@.wf(),
            final(self)@.shape == old(self)@.shape,
            final(self)@.live == old(self)@.live,
            final(self)@.generation == old(self)@.generation,
            forall|q: Cell|
                #![trigger final(self)@.active.contains(q)]
                final(self)@.active.contains(q) <==> old(self)@.active.contains(q) || (old(
                    self,
                )@.shape.on_grid(q) && exists|i: int|
                    0 <= i < coords@.len() && cell(#[trigger] coords@[i]) == q),
    {
        let ghost before = self@;
        let (space, mut cache) = self.take_sets();
        let mut i: usize = 0;
        while i < coords.len()
            invariant
                i <= coords@.len(),
                before.wf(),
                self.grid@ == before.shape,
                cache@.finite(),
                forall|q: Cell|
                    #![trigger cache@.contains(q)]
                    cache@.contains(q) <==> before.active.contains(q) || (before.shape.on_grid(q)
                        && exists|j: int| 0 <= j < i && cell(#[trigger] coords@[j]) == q),
            decreases coords@.len() - i,
        {
            let c = coords[i];
            let ghost earlier = cache@;
            if self.grid.contains(c) {
                cache.insert(c);
            }
            i = i + 1;
            proof {
                assert forall|q: Cell|
                    #![trigger cache@.contains(q)]
                    cache@.contains(q) <==> before.active.contains(q) || (before.shape.on_grid(q)
                        && exists|j: int| 0 <= j < i && cell(#[trigger] coords@[j]) == q) by {
                    if before.shape.on_grid(q) && exists|j: int|
                        0 <= j < i && cell(#[trigger] coords@[j]) == q {
                        let j = choose|j: int| 0 <= j < i && cell(#[trigger] coords@[j]) == q;
                        if j < i - 1 {
                            assert(earlier.contains(q));
                        }
                    }
                    if earlier.contains(q) && !before.active.contains(q) {
                        let j = choose|j: int| 0 <= j < i - 1 && cell(#[trigger] coords@[j]) == q;
                        assert(0 <= j < i && cell(coords@[j]) == q);
                    }
                }
            }
        }
        proof {
            let after = World { live: space@, active: cache@, ..self@ };
            assert forall|q: Cell| #[trigger] after.flips(q) implies after.active.contains(q) by {
                assert(before.flips(q));
            }
        }
        self.put_sets(space, cache);
    }

    /// The cells that change state in the next step, each with the state it
    /// takes. Only the scheduled cells are evaluated.
    fn changes(&self) -> (out: Vec<(Coord, bool)>)
        ensures
            self@.wf(),
            forall|j: int|
                0 <= j < out@.len() ==> self@.flips(cell((#[trigger] out@[j]).0)) && out@[j].1
                    == self@.next_alive(cell(out@[j].0)),
            forall|p: Cell|
                self@.flips(p) ==> exists|j: int|
                    0 <= j < out@.len() && cell((#[trigger] out@[j]).0) == p,
    {
        proof {
            use_type_invariant(self);
        }
        let todo = self.cache.members();
        let mut out: Vec<(Coord, bool)> = Vec::new();
        let mut i: usize = 0;
        while i < todo.len()
            invariant
                i <= todo@.len(),
                forall|j: int|
                    0 <= j < out@.len() ==> self@.flips(cell((#[trigger] out@[j]).0)) && out@[j].1
                        == self@.next_alive(cell(out@[j].0)),
                forall|t: int|
                    0 <= t < i && self@.flips(cell(#[trigger] todo@[t])) ==> exists|j: int|
                        0 <= j < out@.len() && (#[trigger] out@[j]).0 == todo@[t],
            decreases todo@.len() - i,
        {
            let coord = todo[i];
            let verdict = self.next_cell_state(coord);
            let ghost earlier = out@;
            if verdict.1.is_some() {
                out.push((coord, verdict.0));
            }
            i = i + 1;
            proof {
                assert forall|t: int|
                    0 <= t < i && self@.flips(cell(#[trigger] todo@[t])) implies exists|j: int|
                    0 <= j < out@.len() && (#[trigger] out@[j]).0 == todo@[t] by {
                    if t < i - 1 {
                        let j = choose|j: int|
                            0 <= j < earlier.len() && (#[trigger] earlier[j]).0 == todo@[t];
                        assert(out@[j].0 == todo@[t]);
                    } else {
                        assert(out@[out@.len() - 1].0 == todo@[t]);
                    }
                }
            }
        }
        proof {
            assert forall|p: Cell| self@.flips(p) implies exists|j: int|
                0 <= j < out@.len() && cell((#[trigger] out@[j]).0) == p by {
                assert(self@.active.contains(p));
                let t = choose|t: int| 0 <= t < todo@.len() && cell(#[trigger] todo@[t]) == p;
                let j = choose|j: int| 0 <= j < out@.len() && (#[trigger] out@[j]).0 == todo@[t];
                assert(cell(out@[j].0) == p);
            }
        }
        out
    }

    /// Advances the game by one generation: every cell takes the state that
    /// the rule gives it, and the cells that changed are scheduled together
    /// with their neighbours. Only the scheduled cells are evaluated.
    pub fn next(&mut self)
        requires
            old(self)@.generation < usize::MAX,
        ensures
            final(self)@.wf(),
            final(self)@ == old(self)@.step(),
    {
        let ghost w = self@;
        let changes = self.changes();
        let (mut space, _) = self.take_sets();
        let mut cache = CellSet::new();
        let mut j: usize = 0;
        while j < changes.len()
            invariant
                j <= changes@.len(),
                w.wf(),
                self.grid@ == w.shape,
                forall|t: int|
                    0 <= t < changes@.len() ==> w.flips(cell((#[trigger] changes@[t]).0))
                        && changes@[t].1 == w.next_alive(cell(changes@[t].0)),
                forall|p: Cell|
                    #![trigger space@.contains(p)]
                    space@.contains(p) <==> (if exists|t: int|
                        0 <= t < j && cell((#[trigger] changes@[t]).0) == p {
                        w.next_alive(p)
                    } else {
                        w.live.contains(p)
                    }),
                forall|q: Cell|
                    #![trigger cache@.contains(q)]
                    cache@.contains(q) <==> exists|t: int|
                        0 <= t < j && w.shape.reach(cell((#[trigger] changes@[t]).0)).contains(q),
            decreases changes@.len() - j,
        {
            let coord = changes[j].0;
            let state = changes[j].1;
            let ghost space_before = space@;
            let ghost cache_before = cache@;
            proof {
                self.grid.lemma_addressable(cell(coord));
            }
            if state {
                space.insert(coord);
            } else {
                space.remove(coord);
            }
            self.grid.schedule(&mut cache, coord);
            j = j + 1;
            proof {
                let here = cell(coord);
                assert forall|p: Cell|
                    #![trigger space@.contains(p)]
                    space@.contains(p) <==> (if exists|t: int|
                        0 <= t < j && cell((#[trigger] changes@[t]).0) == p {
                        w.next_alive(p)
                    } else {
                        w.live.contains(p)
                    }) by {
                    let seen_now = exists|t: int|
                        0 <= t < j && cell((#[trigger] changes@[t]).0) == p;
                    let seen_before = exists|t: int|
                        0 <= t < j - 1 && cell((#[trigger] changes@[t]).0) == p;
                    assert(space_before.contains(p) <==> (if seen_before {
                        w.next_alive(p)
                    } else {
                        w.live.contains(p)
                    }));
                    if p == here {
                        assert(cell(changes@[j - 1].0) == p);
                        assert(seen_now);
                    } else {
                        if seen_now {
                            let t = choose|t: int|
                                0 <= t < j && cell((#[trigger] changes@[t]).0) == p;
                            assert(t < j - 1);
                            assert(seen_before);
                        }
                        if seen_before {
                            let t = choose|t: int|
                                0 <= t < j - 1 && cell((#[trigger] changes@[t]).0) == p;
                            assert(0 <= t < j && cell(changes@[t].0) == p);
                        }
                    }
                }
                assert forall|q: Cell|
                    #![trigger cache@.contains(q)]
                    cache@.contains(q) <==> exists|t: int|
                        0 <= t < j && w.shape.reach(cell((#[trigger] changes@[t]).0)).contains(
                            q,
                        ) by {
                    if cache_before.contains(q) {
                        let t = choose|t: int|
                            0 <= t < j - 1 && w.shape.reach(
                                cell((#[trigger] changes@[t]).0),
                            ).contains(q);
                        assert(0 <= t < j && w.shape.reach(cell(changes@[t].0)).contains(q));
                    }
                    if w.shape.reach(here).contains(q) {
                        assert(w.shape.reach(cell(changes@[j - 1].0)).contains(q));
                    }
                    if exists|t: int|
                        0 <= t < j && w.shape.reach(cell((#[trigger] changes@[t]).0)).contains(q) {
                        let t = choose|t: int|
                            0 <= t < j && w.shape.reach(cell((#[trigger] changes@[t]).0)).contains(
                                q,
                            );
                        if t < j - 1 {
                            assert(cache_before.contains(q));
                        }
                    }
                }
            }
        }
        proof {
            assert forall|p: Cell| space@.contains(p) == w.next_live().contains(p) by {
                if exists|t: int| 0 <= t < j && cell((#[trigger] changes@[t]).0) == p {
                } else {
                    if w.flips(p) {
                        let t = choose|t: int|
                            0 <= t < changes@.len() && cell((#[trigger] changes@[t]).0) == p;
                        assert(false);
                    }
                }
            }
            assert(space@ =~= w.next_live());
            assert forall|q: Cell| cache@.contains(q) == w.next_active().contains(q) by {
                if cache@.contains(q) {
                    let t = choose|t: int|
                        0 <= t < j && w.shape.reach(cell((#[trigger] changes@[t]).0)).contains(q);
                    let p = cell(changes@[t].0);
                    assert(w.flips(p));
                    if q != p {
                        w.shape.lemma_adjacent_symmetric(p, q);
                    }
                }
                if w.disturbed(q) {
                    if w.flips(q) {
                        let t = choose|t: int|
                            0 <= t < changes@.len() && cell((#[trigger] changes@[t]).0) == q;
                        assert(w.shape.reach(cell(changes@[t].0)).contains(q));
                    } else {
                        let k = choose|k: int| 0 <= k < 8 && w.flips(w.shape.neighbor(q, k));
                        let p = w.shape.neighbor(q, k);
                        w.shape.lemma_neighbor_round_trip(q, k);
                        let t = choose|t: int|
                            0 <= t < changes@.len() && cell((#[trigger] changes@[t]).0) == p;
                        assert(w.shape.reach(cell(changes@[t].0)).contains(q));
                    }
                }
            }
            assert(cache@ =~= w.next_active());
            w.lemma_step_wf();
        }
        self.put_sets(space, cache);
        self.generation = self.generation + 1;
    }

    /// Whether a run that is limited to `max_generations` steps is over:
    /// the limit is reached or nothing is alive.
    pub fn finished(&self, max_generations: usize) -> (b: bool)
        ensures
            b == (self@.generation >= max_generations || self@.live.len() == 0),
    {
        self.generation >= max_generations || self.alive() == 0
    }
}

} // verus!
