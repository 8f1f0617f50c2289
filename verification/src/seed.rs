use vstd::prelude::*;
use rand::Rng;
use crate::cellset::{cell, Coord};
use crate::error::GameError;
use crate::game::Game;
use crate::shape::{precedes, Cell};

verus! {

/// One draw from the thread's random number generator, by `Rng::gen_range`
/// of the crate `rand` with the bounds 0 and `bound`. The crate documents
/// the result as lying in the half-open range from the lower bound to the
/// upper, and the call as panicking unless the range is non-empty: that is
/// all this contract takes for granted.
#[verifier::external_body]
fn draw_below(bound: usize) -> (r: usize)
    requires
        bound > 0,
    ensures
        r < bound,
{
    rand::thread_rng().gen_range(0, bound)
}

impl Game {
    /// The dead cells of the board, each once, read row by row.
    pub fn dead_cells(&self) -> (out: Vec<Coord>)
        ensures
            self@.wf(),
            forall|i: int|
                0 <= i < out@.len() ==> self@.shape.on_grid(cell(#[trigger] out@[i]))
                    && !self@.live.contains(cell(out@[i])),
            forall|p: Cell|
                self@.shape.on_grid(p) && !self@.live.contains(p) ==> exists|i: int|
                    0 <= i < out@.len() && cell(#[trigger] out@[i]) == p,
            forall|i: int, j: int|
                0 <= i < j < out@.len() ==> precedes(
                    cell(#[trigger] out@[i]),
                    cell(#[trigger] out@[j]),
                ),
    {
        let dims = self.size();
        let rows: usize = dims.0;
        let cols: usize = dims.1;
        let mut out: Vec<Coord> = Vec::new();
        let mut r: usize = 0;
        while r < rows
            invariant
                r <= rows,
                rows == self@.shape.rows,
                cols == self@.shape.cols,
                forall|i: int|
                    0 <= i < out@.len() ==> self@.shape.on_grid(cell(#[trigger] out@[i]))
                        && !self@.live.contains(cell(out@[i])) && out@[i].0 < r,
                forall|p: Cell|
                    self@.shape.on_grid(p) && !self@.live.contains(p) && p.0 < r ==> exists|i: int|
                        0 <= i < out@.len() && cell(#[trigger] out@[i]) == p,
                forall|i: int, j: int|
                    0 <= i < j < out@.len() ==> precedes(
                        cell(#[trigger] out@[i]),
                        cell(#[trigger] out@[j]),
                    ),
            decreases rows - r,
        {
            let mut c: usize = 0;
            while c < cols
                invariant
                    r < rows,
                    c <= cols,
                    rows == self@.shape.rows,
                    cols == self@.shape.cols,
                    forall|i: int|
                        0 <= i < out@.len() ==> self@.shape.on_grid(cell(#[trigger] out@[i]))
                            && !self@.live.contains(cell(out@[i])) && precedes(
                            cell(out@[i]),
                            (r as int, c as int),
                        ),
                    forall|p: Cell|
                        self@.shape.on_grid(p) && !self@.live.contains(p) && precedes(
                            p,
                            (r as int, c as int),
                        ) ==> exists|i: int| 0 <= i < out@.len() && cell(#[trigger] out@[i]) == p,
                    forall|i: int, j: int|
                        0 <= i < j < out@.len() ==> precedes(
                            cell(#[trigger] out@[i]),
                            cell(#[trigger] out@[j]),
                        ),
                decreases cols - c,
            {
                let here: Coord = (r as i128, c as i128);
                let ghost earlier = out@;
                if !self.cell_state(here) {
                    out.push(here);
                }
                c = c + 1;
                proof {
                    assert forall|p: Cell|
                        self@.shape.on_grid(p) && !self@.live.contains(p) && precedes(
                            p,
                            (r as int, c as int),
                        ) implies exists|i: int|
                        0 <= i < out@.len() && cell(#[trigger] out@[i]) == p by {
                        if p == cell(here) {
                            assert(cell(out@[out@.len() - 1]) == p);
                        } else {
                            assert(precedes(p, (r as int, c - 1)));
                            let i = choose|i: int|
                                0 <= i < earlier.len() && cell(#[trigger] earlier[i]) == p;
                            assert(cell(out@[i]) == p);
                        }
                    }
                }
            }
            r = r + 1;
            proof {
                assert forall|p: Cell|
                    self@.shape.on_grid(p) && !self@.live.contains(p) && p.0 < r implies exists|
                    i: int,
                | 0 <= i < out@.len() && cell(#[trigger] out@[i]) == p by {
                    assert(precedes(p, (r - 1, cols as int)));
                }
            }
        }
        out
    }

    /// Takes candidate number `pick` out of `pool`, filling its place with
    /// the last candidate, and makes that cell alive as `set_cell_state`
    /// does.
    pub fn populate(&mut self, pool: &mut Vec<Coord>, pick: usize) -> (res: Result<
        Coord,
        GameError,
    >)
        requires
            pick < old(pool)@.len(),
        ensures
            final(pool)@ == old(pool)@.update(pick as int, old(pool)@.last()).drop_last(),
            final(self)@.wf(),
            final(self)@.shape == old(self)@.shape,
            final(self)@.generation == old(self)@.generation,
            res is Err <==> !old(self)@.shape.on_grid(cell(old(pool)@[pick as int])),
            res matches Err(e) ==> e == GameError::OutOfBounds && final(self)@ == old(self)@,
            res matches Ok(c) ==> c == old(pool)@[pick as int] && final(self)@.live == old(
                self,
            )@.live.insert(cell(c)) && final(self)@.active == (if old(self)@.live.contains(cell(c)) {
                old(self)@.active
            } else {
                old(self)@.active.union(old(self)@.shape.reach(cell(c)))
            }),
    {
        let coord = pool.swap_remove(pick);
        match self.set_cell_state(coord, true) {
            Ok(()) => Ok(coord),
            Err(e) => Err(e),
        }
    }

    /// Whether `target` cells fit on the board.
    fn fits(&self, target: usize) -> (b: bool)
        ensures
            self@.wf(),
            b == (target <= self@.shape.area()),
    {
        let dims = self.size();
        let rows: u128 = dims.0 as u128;
        let cols: u128 = dims.1 as u128;
        assert(rows * cols <= 0xffff_ffff_ffff_ffff * 0xffff_ffff_ffff_ffff) by (nonlinear_arith)
            requires
                rows <= 0xffff_ffff_ffff_ffff,
                cols <= 0xffff_ffff_ffff_ffff,
        ;
        target as u128 <= rows * cols
    }

    /// Brings dead cells to life, chosen uniformly at random, until
    /// `target` cells are alive, and schedules each of them with its
    /// neighbours. A board that already holds `target` live cells or more
    /// is left as it is. Fails, and changes nothing, when the board has
    /// fewer than `target` cells.
    pub fn init(&mut self, target: usize) -> (res: Result<(), GameError>)
        ensures
            final(self)@.wf(),
            final(self)@.shape == old(self)@.shape,
            final(self)@.generation == old(self)@.generation,
            res is Err <==> target > old(self)@.shape.area(),
            res matches Err(e) ==> e == GameError::InvalidDensity && final(self)@ == old(self)@,
            res is Ok ==> old(self)@.live.subset_of(final(self)@.live),
            res is Ok ==> final(self)@.live.len() == (if old(self)@.live.len() >= target {
                old(self)@.live.len()
            } else {
                target as nat
            }),
            res is Ok ==> forall|q: Cell|
                #![trigger final(self)@.active.contains(q)]
                final(self)@.active.contains(q) <==> old(self)@.active.contains(q) || exists|
                    p: Cell,
                |
                    #![trigger final(self)@.live.contains(p)]
                    final(self)@.live.contains(p) && !old(self)@.live.contains(p) && old(
                        self,
                    )@.shape.reach(p).contains(q),
    {
        let ghost before = self@;
        if !self.fits(target) {
            return Err(GameError::InvalidDensity);
        }
        let mut pool = self.dead_cells();
        assert(pool@.no_duplicates()) by {
            assert forall|i: int, j: int| 0 <= i < j < pool@.len() implies pool@[i] != pool@[j] by {
                assert(precedes(cell(pool@[i]), cell(pool@[j])));
            }
        }
        while self.alive() < target
            invariant
                self@.wf(),
                self@.shape == before.shape,
                self@.generation == before.generation,
                target <= before.shape.area(),
                before.live.subset_of(self@.live),
                self@.live.len() <= target || self@.live == before.live,
                pool@.no_duplicates(),
                forall|i: int|
                    0 <= i < pool@.len() ==> self@.shape.on_grid(cell(#[trigger] pool@[i]))
                        && !self@.live.contains(cell(pool@[i])),
                forall|p: Cell|
                    self@.shape.on_grid(p) && !self@.live.contains(p) ==> exists|i: int|
                        0 <= i < pool@.len() && cell(#[trigger] pool@[i]) == p,
                forall|q: Cell|
                    #![trigger self@.active.contains(q)]
                    self@.active.contains(q) <==> before.active.contains(q) || exists|p: Cell|
                        #![trigger self@.live.contains(p)]
                        self@.live.contains(p) && !before.live.contains(p) && before.shape.reach(
                            p,
                        ).contains(q),
            decreases target - self@.live.len(),
        {
            let ghost world = self@;
            let ghost candidates = pool@;
            proof {
                if pool@.len() == 0 {
                    world.shape.lemma_cells_len();
                    assert(world.shape.cells().subset_of(world.live));
                    vstd::set_lib::lemma_len_subset(world.shape.cells(), world.live);
                    assert(false);
                }
            }
            let pick: usize = draw_below(pool.len());
            let placed = self.populate(&mut pool, pick);
            proof {
                let here = cell(candidates[pick as int]);
                assert(placed is Ok);
                assert(self@.live == world.live.insert(here));
                assert(self@.active == world.active.union(world.shape.reach(here)));
                assert(pool@.no_duplicates());
                assert forall|i: int| 0 <= i < pool@.len() implies self@.shape.on_grid(
                    cell(#[trigger] pool@[i]),
                ) && !self@.live.contains(cell(pool@[i])) by {
                    if i == pick {
                        assert(pool@[i] == candidates[candidates.len() - 1]);
                    } else {
                        assert(pool@[i] == candidates[i]);
                    }
                }
                assert forall|p: Cell|
                    self@.shape.on_grid(p) && !self@.live.contains(p) implies exists|i: int|
                    0 <= i < pool@.len() && cell(#[trigger] pool@[i]) == p by {
                    let i = choose|i: int|
                        0 <= i < candidates.len() && cell(#[trigger] candidates[i]) == p;
                    if i == candidates.len() - 1 {
                        assert(cell(pool@[pick as int]) == p);
                    } else {
                        assert(cell(pool@[i]) == p);
                    }
                }
                assert forall|q: Cell|
                    #![trigger self@.active.contains(q)]
                    self@.active.contains(q) <==> before.active.contains(q) || exists|p: Cell|
                        #![trigger self@.live.contains(p)]
                        self@.live.contains(p) && !before.live.contains(p) && before.shape.reach(
                            p,
                        ).contains(q) by {
                    if world.active.contains(q) && !before.active.contains(q) {
                        let p = choose|p: Cell|
                            #![trigger world.live.contains(p)]
                            world.live.contains(p) && !before.live.contains(p)
                                && before.shape.reach(p).contains(q);
                        assert(self@.live.contains(p));
                    }
                    if world.shape.reach(here).contains(q) {
                        assert(self@.live.contains(here));
                    }
                    if exists|p: Cell|
                        #![trigger self@.live.contains(p)]
                        self@.live.contains(p) && !before.live.contains(p) && before.shape.reach(
                            p,
                        ).contains(q) {
                        let p = choose|p: Cell|
                            #![trigger self@.live.contains(p)]
                            self@.live.contains(p) && !before.live.contains(p)
                                && before.shape.reach(p).contains(q);
                        if p != here {
                            assert(world.live.contains(p));
                            assert(world.active.contains(q));
                        }
                    }
                }
            }
        }
        proof {
            vstd::set_lib::lemma_len_subset(before.live, self@.live);
        }
        Ok(())
    }
}

} // verus!
