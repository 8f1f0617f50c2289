use vstd::prelude::*;
use vstd::set_lib::lemma_map_size;
use vstd::std_specs::iter::IteratorSpec;
use std::collections::HashSet;
use crate::shape::Cell;

verus! {

/// A position as executable code holds it: `(row, column)`.
pub type Coord = (i128, i128);

/// The position that a coordinate names.
pub open spec fn cell(c: Coord) -> Cell {
    (c.0 as int, c.1 as int)
}

/// One more than the largest row or column index that a `CellSet` can hold.
pub const SPAN: u128 = 0x1_0000_0000_0000_0000;

/// Whether a `CellSet` can hold `p`: both indices lie in `0..SPAN`.
pub open spec fn addressable(p: Cell) -> bool {
    0 <= p.0 < SPAN && 0 <= p.1 < SPAN
}

/// The key under which an addressable position is stored.
pub closed spec fn key_of(p: Cell) -> u128 {
    (p.0 * SPAN + p.1) as u128
}

/// The position stored under a key.
pub closed spec fn cell_of(k: u128) -> Cell {
    ((k / SPAN) as int, (k % SPAN) as int)
}

/// The positions stored under a set of keys.
pub closed spec fn cells_of(keys: Set<u128>) -> Set<Cell> {
    Set::new(|p: Cell| addressable(p) && keys.contains(key_of(p)))
}

proof fn lemma_key_round_trip(p: Cell)
    requires
        addressable(p),
    ensures
        cell_of(key_of(p)) == p,
{
}

proof fn lemma_cell_round_trip(k: u128)
    ensures
        addressable(cell_of(k)),
        key_of(cell_of(k)) == k,
{
}

proof fn lemma_cells_of_len(keys: Set<u128>)
    requires
        keys.finite(),
    ensures
        cells_of(keys).finite(),
        cells_of(keys).len() == keys.len(),
{
    let f = |k: u128| cell_of(k);
    assert forall|a: u128, b: u128| #[trigger] f(a) == #[trigger] f(b) implies a == b by {
        lemma_cell_round_trip(a);
        lemma_cell_round_trip(b);
    }
    assert(keys.map(f) =~= cells_of(keys)) by {
        assert forall|p: Cell| keys.map(f).contains(p) == cells_of(keys).contains(p) by {
            if keys.map(f).contains(p) {
                let k = choose|k: u128| keys.contains(k) && f(k) == p;
                lemma_cell_round_trip(k);
            }
            if cells_of(keys).contains(p) {
                lemma_key_round_trip(p);
                assert(keys.contains(key_of(p)) && f(key_of(p)) == p);
            }
        }
    }
    lemma_map_size(keys, cells_of(keys), f);
}

/// A finite set of addressable positions.
#[derive(Debug)]
pub struct CellSet {
    keys: HashSet<u128>,
}

impl View for CellSet {
    type V = Set<Cell>;

    closed spec fn view(&self) -> Set<Cell> {
        cells_of(self.keys@)
    }
}

impl CellSet {
    #[verifier::type_invariant]
    spec fn inv(self) -> bool {
        self.keys@.finite()
    }

    /// The empty set.
    pub fn new() -> (s: CellSet)
        ensures
            s@ == Set::<Cell>::empty(),
    {
        let s = CellSet { keys: HashSet::new() };
        assert(s@ =~= Set::<Cell>::empty());
        s
    }

    /// The number of positions in the set.
    pub fn len(&self) -> (n: usize)
        ensures
            self@.finite(),
            n == self@.len(),
    {
        proof {
            use_type_invariant(self);
            lemma_cells_of_len(self.keys@);
        }
        self.keys.len()
    }

    /// Whether the set holds the position named by `c`.
    pub fn contains(&self, c: Coord) -> (b: bool)
        ensures
            b == self@.contains(cell(c)),
    {
        if c.0 < 0 || c.1 < 0 || c.0 >= SPAN as i128 || c.1 >= SPAN as i128 {
            return false;
        }
        let k: u128 = (c.0 as u128) * SPAN + (c.1 as u128);
        self.keys.contains(&k)
    }

    /// Puts the position named by `c` into the set.
    pub fn insert(&mut self, c: Coord)
        requires
            addressable(cell(c)),
        ensures
            final(self)@ == old(self)@.insert(cell(c)),
    {
        proof {
            use_type_invariant(&*self);
        }
        let k: u128 = (c.0 as u128) * SPAN + (c.1 as u128);
        let mut keys: HashSet<u128> = HashSet::new();
        std::mem::swap(&mut keys, &mut self.keys);
        keys.insert(k);
        self.keys = keys;
        proof {
            let p = cell(c);
            assert forall|q: Cell| final(self)@.contains(q) == old(self)@.insert(p).contains(q) by {
                if addressable(q) && q != p {
                    lemma_key_round_trip(q);
                    lemma_key_round_trip(p);
                }
            }
            assert(final(self)@ =~= old(self)@.insert(p));
        }
    }

    /// Takes the position named by `c` out of the set, if it is there.
    pub fn remove(&mut self, c: Coord)
        ensures
            final(self)@ == old(self)@.remove(cell(c)),
    {
        proof {
            use_type_invariant(&*self);
        }
        let p = Ghost(cell(c));
        if c.0 < 0 || c.1 < 0 || c.0 >= SPAN as i128 || c.1 >= SPAN as i128 {
            assert(self@ =~= old(self)@.remove(p@));
            return ;
        }
        let k: u128 = (c.0 as u128) * SPAN + (c.1 as u128);
        let mut keys: HashSet<u128> = HashSet::new();
        std::mem::swap(&mut keys, &mut self.keys);
        keys.remove(&k);
        self.keys = keys;
        proof {
            assert forall|q: Cell| final(self)@.contains(q) == old(self)@.remove(p@).contains(q) by {
                if addressable(q) && q != p@ {
                    lemma_key_round_trip(q);
                    lemma_key_round_trip(p@);
                }
            }
            assert(final(self)@ =~= old(self)@.remove(p@));
        }
    }

    /// The positions of the set, each once, in no particular order.
    pub fn members(&self) -> (out: Vec<Coord>)
        ensures
            out@.no_duplicates(),
            forall|i: int| 0 <= i < out@.len() ==> self@.contains(cell(#[trigger] out@[i])),
            forall|p: Cell|
                self@.contains(p) ==> exists|i: int|
                    0 <= i < out@.len() && cell(#[trigger] out@[i]) == p,
    {
        let mut out: Vec<Coord> = Vec::new();
        let ghost keys: Seq<u128> = self.keys.iter().remaining().unref();
        for k in it: self.keys.iter()
            invariant
                it.seq().unref() == keys,
                keys.to_set() == self.keys@,
                keys.no_duplicates(),
                out@.len() == it.index(),
                forall|i: int| 0 <= i < out@.len() ==> cell(#[trigger] out@[i]) == cell_of(keys[i]),
        {
            let r: i128 = (*k / SPAN) as i128;
            let c: i128 = (*k % SPAN) as i128;
            out.push((r, c));
        }
        proof {
            assert forall|i: int, j: int| 0 <= i < j < out@.len() implies out@[i] != out@[j] by {
                lemma_cell_round_trip(keys[i]);
                lemma_cell_round_trip(keys[j]);
            }
            assert forall|i: int| 0 <= i < out@.len() implies self@.contains(
                cell(#[trigger] out@[i]),
            ) by {
                lemma_cell_round_trip(keys[i]);
                assert(keys.to_set().contains(keys[i]));
            }
            assert forall|p: Cell| self@.contains(p) implies exists|i: int|
                0 <= i < out@.len() && cell(#[trigger] out@[i]) == p by {
                let k = key_of(p);
                assert(keys.to_set().contains(k));
                let i = choose|i: int| 0 <= i < keys.len() && keys[i] == k;
                lemma_key_round_trip(p);
                assert(cell(out@[i]) == p);
            }
        }
        out
    }
}

} // verus!
