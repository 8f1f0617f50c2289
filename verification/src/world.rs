use vstd::prelude::*;
use crate::shape::{opposite, Cell, Shape};

verus! {

/// The rule of the game: a cell lives in the next generation when it has
/// exactly three live neighbours, or is alive and has exactly two.
pub open spec fn survives(alive: bool, live_neighbors: nat) -> bool {
    live_neighbors == 3 || (alive && live_neighbors == 2)
}

/// The state of a simulation as contracts see it.
pub struct World {
    /// Extent and boundary policy of the board.
    pub shape: Shape,
    /// The cells that are alive.
    pub live: Set<Cell>,
    /// The cells that the next step will evaluate.
    pub active: Set<Cell>,
    /// The number of steps taken so far.
    pub generation: nat,
}

impl World {
    /// A board of the given shape on which nothing lives and nothing is
    /// scheduled.
    pub open spec fn empty(shape: Shape) -> World {
        World { shape, live: Set::empty(), active: Set::empty(), generation: 0 }
    }

    /// 1 if `p` is a live cell of the board, else 0. Positions off the grid
    /// count as dead.
    pub open spec fn lit(self, p: Cell) -> nat {
        if self.shape.on_grid(p) && self.live.contains(p) {
            1
        } else {
            0
        }
    }

    /// How many of the eight neighbours of `p` are alive.
    pub open spec fn live_neighbors(self, p: Cell) -> nat {
        self.lit(self.shape.neighbor(p, 0)) + self.lit(self.shape.neighbor(p, 1)) + self.lit(
            self.shape.neighbor(p, 2),
        ) + self.lit(self.shape.neighbor(p, 3)) + self.lit(self.shape.neighbor(p, 4)) + self.lit(
            self.shape.neighbor(p, 5),
        ) + self.lit(self.shape.neighbor(p, 6)) + self.lit(self.shape.neighbor(p, 7))
    }

    /// Whether `p` is alive in the next generation. Positions off the grid
    /// never are.
    pub open spec fn next_alive(self, p: Cell) -> bool {
        self.shape.on_grid(p) && survives(self.live.contains(p), self.live_neighbors(p))
    }

    /// Whether `p` is a cell whose state differs between this generation and
    /// the next.
    pub open spec fn flips(self, p: Cell) -> bool {
        self.shape.on_grid(p) && self.next_alive(p) != self.live.contains(p)
    }

    /// Whether `q` is a cell that changes state in the next step or has a
    /// neighbour that does.
    pub open spec fn disturbed(self, q: Cell) -> bool {
        self.shape.on_grid(q) && (self.flips(q) || self.flips(self.shape.neighbor(q, 0))
            || self.flips(self.shape.neighbor(q, 1)) || self.flips(self.shape.neighbor(q, 2))
            || self.flips(self.shape.neighbor(q, 3)) || self.flips(self.shape.neighbor(q, 4))
            || self.flips(self.shape.neighbor(q, 5)) || self.flips(self.shape.neighbor(q, 6))
            || self.flips(self.shape.neighbor(q, 7)))
    }

    /// The live cells of the next generation, by applying the rule to every
    /// cell of the board.
    pub open spec fn next_live(self) -> Set<Cell> {
        Set::new(|p: Cell| self.next_alive(p))
    }

    /// The live cells after applying the rule to the active cells only and
    /// leaving every other cell as it is.
    pub open spec fn next_live_of_active(self) -> Set<Cell> {
        Set::new(
            |p: Cell|
                if self.active.contains(p) {
                    self.next_alive(p)
                } else {
                    self.live.contains(p)
                },
        )
    }

    /// The cells to evaluate after the next step: those that change state in
    /// it, and their neighbours.
    pub open spec fn next_active(self) -> Set<Cell> {
        Set::new(|q: Cell| self.disturbed(q))
    }

    /// The world one generation later.
    pub open spec fn step(self) -> World {
        World {
            shape: self.shape,
            live: self.next_live(),
            active: self.next_active(),
            generation: self.generation + 1,
        }
    }

    /// The world `n` generations later.
    pub open spec fn after(self, n: nat) -> World
        decreases n,
    {
        if n == 0 {
            self
        } else {
            self.step().after((n - 1) as nat)
        }
    }

    /// What every simulation maintains: the board has cells, finitely many
    /// positions are alive or scheduled and all of them are cells, and every
    /// cell that is about to change state is scheduled.
    pub open spec fn wf(self) -> bool {
        &&& self.shape.valid()
        &&& self.live.finite()
        &&& self.active.finite()
        &&& forall|p: Cell| #[trigger] self.live.contains(p) ==> self.shape.on_grid(p)
        &&& forall|p: Cell| #[trigger] self.active.contains(p) ==> self.shape.on_grid(p)
        &&& forall|p: Cell| #[trigger] self.flips(p) ==> self.active.contains(p)
    }

    /// Where nothing lives, nothing is about to change.
    pub proof fn lemma_barren_is_quiet(self, p: Cell)
        requires
            self.live == Set::<Cell>::empty(),
        ensures
            !self.next_alive(p),
            !self.flips(p),
    {
    }

    /// Setting the state of the cell `p` and scheduling the cells within its
    /// reach keeps the world well formed.
    pub proof fn lemma_set_wf(self, other: World, p: Cell)
        requires
            self.wf(),
            self.shape.on_grid(p),
            other.shape == self.shape,
            other.live == self.live.insert(p) || other.live == self.live.remove(p),
            other.active == self.active.union(self.shape.reach(p)),
        ensures
            other.wf(),
    {
        self.shape.lemma_reach_finite(p);
        assert forall|q: Cell| #[trigger] other.flips(q) implies other.active.contains(q) by {
            if !self.shape.reach(p).contains(q) {
                self.lemma_change_is_local(other, p, q);
            }
        }
    }

    /// The neighbour count of a position depends only on the states of the
    /// cells around it.
    pub proof fn lemma_count_is_local(self, other: World, p: Cell)
        requires
            self.shape == other.shape,
            forall|k: int|
                0 <= k < 8 ==> self.lit(#[trigger] self.shape.neighbor(p, k)) == other.lit(
                    self.shape.neighbor(p, k),
                ),
        ensures
            self.live_neighbors(p) == other.live_neighbors(p),
    {
        assert(self.lit(self.shape.neighbor(p, 0)) == other.lit(self.shape.neighbor(p, 0)));
        assert(self.lit(self.shape.neighbor(p, 1)) == other.lit(self.shape.neighbor(p, 1)));
        assert(self.lit(self.shape.neighbor(p, 2)) == other.lit(self.shape.neighbor(p, 2)));
        assert(self.lit(self.shape.neighbor(p, 3)) == other.lit(self.shape.neighbor(p, 3)));
        assert(self.lit(self.shape.neighbor(p, 4)) == other.lit(self.shape.neighbor(p, 4)));
        assert(self.lit(self.shape.neighbor(p, 5)) == other.lit(self.shape.neighbor(p, 5)));
        assert(self.lit(self.shape.neighbor(p, 6)) == other.lit(self.shape.neighbor(p, 6)));
        assert(self.lit(self.shape.neighbor(p, 7)) == other.lit(self.shape.neighbor(p, 7)));
    }

    /// A change at `p` leaves every cell outside the reach of `p` as stable
    /// or unstable as it was.
    pub proof fn lemma_change_is_local(self, other: World, p: Cell, q: Cell)
        requires
            self.shape.valid(),
            self.shape == other.shape,
            self.shape.on_grid(p),
            self.shape.on_grid(q),
            forall|x: Cell| x != p ==> self.live.contains(x) == other.live.contains(x),
            !self.shape.reach(p).contains(q),
        ensures
            self.flips(q) == other.flips(q),
    {
        assert forall|k: int| 0 <= k < 8 implies self.lit(#[trigger] self.shape.neighbor(q, k))
            == other.lit(self.shape.neighbor(q, k)) by {
            let m = self.shape.neighbor(q, k);
            if m == p {
                self.shape.lemma_neighbor_round_trip(q, k);
                assert(self.shape.neighbor(p, opposite(k)) == q);
                assert(self.shape.adjacent(p, q));
            }
        }
        self.lemma_count_is_local(other, q);
    }

    /// A step keeps the world well formed.
    pub proof fn lemma_step_wf(self)
        requires
            self.wf(),
        ensures
            self.step().wf(),
    {
        let next = self.step();
        self.lemma_next_sets_finite();
        assert forall|q: Cell| #[trigger] next.flips(q) implies next.active.contains(q) by {
            if !self.disturbed(q) {
                assert forall|k: int| 0 <= k < 8 implies self.lit(
                    #[trigger] self.shape.neighbor(q, k),
                ) == next.lit(self.shape.neighbor(q, k)) by {
                    let m = self.shape.neighbor(q, k);
                    assert(!self.flips(m));
                }
                self.lemma_count_is_local(next, q);
                assert(next.live_neighbors(q) == self.live_neighbors(q));
                assert(next.live.contains(q) == self.live.contains(q));
                assert(false);
            }
        }
    }

    /// After a step finitely many cells are alive and finitely many are
    /// scheduled.
    pub proof fn lemma_next_sets_finite(self)
        requires
            self.wf(),
        ensures
            self.next_live().finite(),
            self.next_active().finite(),
    {
        self.lemma_active_reach_finite();
        let bound = self.live.union(self.active);
        assert(self.next_live().subset_of(bound)) by {
            assert forall|p: Cell| self.next_live().contains(p) implies bound.contains(p) by {
                if !self.live.contains(p) {
                    assert(self.flips(p));
                }
            }
        }
        vstd::set_lib::lemma_len_subset(self.next_live(), bound);
    }

    /// The cells within reach of the active cells are finitely many, and
    /// they include every cell scheduled by the next step.
    pub proof fn lemma_active_reach_finite(self)
        requires
            self.wf(),
        ensures
            self.next_active().finite(),
    {
        let s = self.shape;
        let shifted = |k: int| self.active.map(|p: Cell| s.neighbor(p, k));
        let around = self.active.union(shifted(0)).union(shifted(1)).union(shifted(2)).union(
            shifted(3),
        ).union(shifted(4)).union(shifted(5)).union(shifted(6)).union(shifted(7));
        assert forall|k: int| 0 <= k < 8 implies (#[trigger] shifted(k)).finite() by {
            self.active.lemma_map_finite(|p: Cell| s.neighbor(p, k));
        }
        assert(shifted(0).finite() && shifted(1).finite() && shifted(2).finite() && shifted(
            3,
        ).finite() && shifted(4).finite() && shifted(5).finite() && shifted(6).finite()
            && shifted(7).finite());
        assert(around.finite());
        assert(self.next_active().subset_of(around)) by {
            assert forall|q: Cell| self.next_active().contains(q) implies around.contains(q) by {
                if !self.flips(q) {
                    let k = choose|k: int| 0 <= k < 8 && self.flips(s.neighbor(q, k));
                    let m = s.neighbor(q, k);
                    s.lemma_neighbor_round_trip(q, k);
                    assert(self.active.contains(m));
                    assert(shifted(opposite(k)).contains(q));
                }
            }
        }
        vstd::set_lib::lemma_len_subset(self.next_active(), around);
    }

    /// Evaluating the active cells only gives the same generation as
    /// evaluating every cell of the board.
    pub proof fn lemma_active_cells_suffice(self)
        requires
            self.wf(),
        ensures
            self.next_live_of_active() == self.next_live(),
    {
        assert forall|p: Cell| self.next_live_of_active().contains(p) == self.next_live().contains(
            p,
        ) by {
            if !self.active.contains(p) {
                assert(!self.flips(p));
            }
        }
        assert(self.next_live_of_active() =~= self.next_live());
    }
}

} // verus!
