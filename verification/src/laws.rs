use vstd::prelude::*;
use crate::shape::{Boundary, Cell};
use crate::world::World;

verus! {

/// The four cells of the two-by-two block whose top left corner is `(r, c)`.
pub open spec fn block(r: int, c: int) -> Set<Cell> {
    set![(r, c), (r, c + 1), (r + 1, c), (r + 1, c + 1)]
}

/// Three cells in a row, centred on `(r, c)`.
pub open spec fn bar_across(r: int, c: int) -> Set<Cell> {
    set![(r, c - 1), (r, c), (r, c + 1)]
}

/// Three cells in a column, centred on `(r, c)`.
pub open spec fn bar_down(r: int, c: int) -> Set<Cell> {
    set![(r - 1, c), (r, c), (r + 1, c)]
}

/// Whether the board leaves a pattern alone: its edges are clamped, or it
/// is a torus of at least `room` rows and columns, so that no cell of the
/// pattern meets another across an edge.
pub open spec fn roomy(w: World, room: int) -> bool {
    w.shape.boundary == Boundary::Clamped || (w.shape.rows >= room && w.shape.cols >= room)
}

/// Extinction is final: once nothing is alive, nothing is alive after any
/// number of steps.
pub proof fn lemma_extinction_is_absorbing(w: World, n: nat)
    requires
        w.live == Set::<Cell>::empty(),
    ensures
        w.after(n).live == Set::<Cell>::empty(),
        w.after(n).live.len() == 0,
    decreases n,
{
    if n > 0 {
        assert forall|p: Cell| !w.step().live.contains(p) by {
            w.lemma_barren_is_quiet(p);
        }
        assert(w.step().live =~= Set::<Cell>::empty());
        lemma_extinction_is_absorbing(w.step(), (n - 1) as nat);
    }
}

/// A single live cell with no live neighbour is dead after one step, and
/// nothing is born.
pub proof fn lemma_lone_cell_dies(w: World, p: Cell)
    requires
        w.shape.valid(),
        w.shape.on_grid(p),
        w.live == set![p],
        roomy(w, 2),
    ensures
        w.live_neighbors(p) == 0,
        w.step().live == Set::<Cell>::empty(),
        w.step().live.len() == 0,
{
    assert forall|q: Cell| !w.step().live.contains(q) by {
        if w.shape.on_grid(q) {
            assert(w.live_neighbors(q) != 3);
        }
    }
    assert(w.step().live =~= Set::<Cell>::empty());
}

/// The two-by-two block is a still life: one step leaves exactly its four
/// cells alive.
pub proof fn lemma_block_step(w: World, r: int, c: int)
    requires
        w.shape.valid(),
        w.shape.on_grid((r, c)),
        w.shape.on_grid((r + 1, c + 1)),
        w.live == block(r, c),
        roomy(w, 3),
    ensures
        w.step().live == block(r, c),
{
    assert forall|q: Cell| w.step().live.contains(q) == block(r, c).contains(q) by {
        if w.shape.on_grid(q) {
            if block(r, c).contains(q) {
                assert(w.live_neighbors(q) == 3);
            } else {
                assert(w.live_neighbors(q) != 3);
            }
        }
    }
    assert(w.step().live =~= block(r, c));
}

/// The two-by-two block is stable: after any number of steps the same four
/// cells, and no others, are alive.
pub proof fn lemma_block_is_stable(w: World, r: int, c: int, n: nat)
    requires
        w.shape.valid(),
        w.shape.on_grid((r, c)),
        w.shape.on_grid((r + 1, c + 1)),
        w.live == block(r, c),
        roomy(w, 3),
    ensures
        w.after(n).live == block(r, c),
        w.after(n).live.len() == 4,
    decreases n,
{
    if n > 0 {
        lemma_block_step(w, r, c);
        lemma_block_is_stable(w.step(), r, c, (n - 1) as nat);
    } else {
        assert(block(r, c).len() == 4) by {
            assert(block(r, c) =~= Set::<Cell>::empty().insert((r, c)).insert((r, c + 1)).insert(
                (r + 1, c),
            ).insert((r + 1, c + 1)));
        }
    }
}

/// One step turns a bar across into a bar down.
pub proof fn lemma_bar_across_turns(w: World, r: int, c: int)
    requires
        w.shape.valid(),
        w.shape.on_grid((r - 1, c - 1)),
        w.shape.on_grid((r + 1, c + 1)),
        w.live == bar_across(r, c),
        roomy(w, 4),
    ensures
        w.step().live == bar_down(r, c),
{
    assert forall|q: Cell| w.step().live.contains(q) == bar_down(r, c).contains(q) by {
        if w.shape.on_grid(q) {
            if q == (r, c) {
                assert(w.live_neighbors(q) == 2);
            } else if bar_down(r, c).contains(q) {
                assert(w.live_neighbors(q) == 3);
            } else if bar_across(r, c).contains(q) {
                assert(w.live_neighbors(q) == 1);
            } else {
                assert(w.live_neighbors(q) <= 2);
            }
        }
    }
    assert(w.step().live =~= bar_down(r, c));
}

/// One step turns a bar down into a bar across.
pub proof fn lemma_bar_down_turns(w: World, r: int, c: int)
    requires
        w.shape.valid(),
        w.shape.on_grid((r - 1, c - 1)),
        w.shape.on_grid((r + 1, c + 1)),
        w.live == bar_down(r, c),
        roomy(w, 4),
    ensures
        w.step().live == bar_across(r, c),
{
    assert forall|q: Cell| w.step().live.contains(q) == bar_across(r, c).contains(q) by {
        if w.shape.on_grid(q) {
            if q == (r, c) {
                assert(w.live_neighbors(q) == 2);
            } else if bar_across(r, c).contains(q) {
                assert(w.live_neighbors(q) == 3);
            } else if bar_down(r, c).contains(q) {
                assert(w.live_neighbors(q) == 1);
            } else {
                assert(w.live_neighbors(q) <= 2);
            }
        }
    }
    assert(w.step().live =~= bar_across(r, c));
}

/// The blinker oscillates with period two: a bar across is a bar down after
/// one step and the same bar across after two.
pub proof fn lemma_blinker_has_period_two(w: World, r: int, c: int)
    requires
        w.shape.valid(),
        w.shape.on_grid((r - 1, c - 1)),
        w.shape.on_grid((r + 1, c + 1)),
        w.live == bar_across(r, c),
        roomy(w, 4),
    ensures
        w.after(1).live == bar_down(r, c),
        w.after(2).live == w.live,
{
    lemma_bar_across_turns(w, r, c);
    lemma_bar_down_turns(w.step(), r, c);
    assert(w.after(2) == w.step().after(1));
    assert(w.step().after(1) == w.step().step().after(0));
    assert(w.after(1) == w.step().after(0));
}

} // verus!
