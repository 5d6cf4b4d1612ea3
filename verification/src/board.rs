//! The mutable game state: an obstacle bitmap over all 110 cells plus
//! the single cat position.
//!
//! The board only stores state and enforces the per-cell placement
//! rules; it never decides whose turn it is.  Cloning a board yields an
//! independent copy, which the planner relies on to explore
//! hypothetical futures.

use vstd::prelude::*;

use crate::bits::{bits_of, ObstacleBits};
use crate::geometry::{Position, CELL_COUNT};

verus! {

/// The mathematical content of a board: which cells are walls, and
/// where the cat sits.
pub struct BoardModel {
    pub walls: Seq<bool>,
    pub cat: Position,
}

impl BoardModel {
    /// A board model is well formed when the bitmap covers every cell,
    /// the cat is in bounds, and the cat's own cell is never a wall.
    pub open spec fn wf(self) -> bool {
        &&& self.walls.len() == CELL_COUNT as int
        &&& self.cat.valid()
        &&& !self.walls[self.cat.index()]
    }

    /// The model after an obstacle appears at `p`.
    pub open spec fn place(self, p: Position) -> BoardModel {
        BoardModel { walls: self.walls.update(p.index(), true), cat: self.cat }
    }

    /// The model after the cat steps to `p`.
    pub open spec fn with_cat(self, p: Position) -> BoardModel {
        BoardModel { walls: self.walls, cat: p }
    }

    /// Whether `p` is a lawful obstacle target: in bounds, currently
    /// unobstructed, and not the cat's cell.
    pub open spec fn placeable(self, p: Position) -> bool {
        p.valid() && !self.walls[p.index()] && p != self.cat
    }
}

/// The game board: an obstacle bitmap and the cat's position.
pub struct Board {
    pub(crate) cells: ObstacleBits,
    pub(crate) cat: Position,
}

impl View for Board {
    type V = BoardModel;

    closed spec fn view(&self) -> BoardModel {
        BoardModel { walls: bits_of(self.cells), cat: self.cat }
    }
}

impl Board {
    /// An empty board: no obstacles, the cat at the given cell.
    pub fn empty(cat: Position) -> (b: Board)
        requires
            cat.valid(),
        ensures
            b@.wf(),
            b@.cat == cat,
            forall|i: int| 0 <= i < CELL_COUNT as int ==> !b@.walls[i],
    {
        let cells = ObstacleBits::repeat(false, CELL_COUNT);
        Board { cells, cat }
    }

    /// The cat's current cell.
    pub fn cat_position(&self) -> (p: Position)
        ensures
            p == self@.cat,
    {
        self.cat
    }

    /// Whether the cell at `p` holds an obstacle.
    pub fn is_obstructed(&self, p: Position) -> (b: bool)
        requires
            self@.wf(),
            p.valid(),
        ensures
            b == self@.walls[p.index()],
    {
        self.cells.read(p.idx())
    }

    /// Places an obstacle at `p` when that is lawful: `p` must be in
    /// bounds, currently unobstructed, and not the cat's cell.
    /// Otherwise the board is left unchanged and the call reports
    /// failure.
    pub fn place_obstacle(&mut self, p: Position) -> (ok: bool)
        requires
            old(self)@.wf(),
        ensures
            final(self)@.wf(),
            ok == old(self)@.placeable(p),
            ok ==> final(self)@ == old(self)@.place(p),
            !ok ==> final(self)@ == old(self)@,
    {
        let ghost m = self@;
        if p.is_valid() {
            let i = p.idx();
            if !self.cells.read(i) && !(p.r == self.cat.r && p.c == self.cat.c) {
                self.cells.write(i, true);
                proof {
                    if p.index() == m.cat.index() {
                        crate::geometry::lemma_index_injective(p, m.cat);
                    }
                    assert(self@ == m.place(p));
                }
                true
            } else {
                false
            }
        } else {
            false
        }
    }

    /// Moves the cat to `p`.  The target must be in bounds and free of
    /// obstacles; callers establish that from the cat policy.
    pub(crate) fn set_cat(&mut self, p: Position)
        requires
            old(self)@.wf(),
            p.valid(),
            !old(self)@.walls[p.index()],
        ensures
            final(self)@.wf(),
            final(self)@ == old(self)@.with_cat(p),
    {
        self.cat = p;
    }

    /// An independent copy: no mutable state is shared, so the planner
    /// may alter the copy freely.
    pub fn duplicate(&self) -> (b: Board)
        ensures
            b@ == self@,
    {
        Board { cells: self.cells.duplicate(), cat: self.cat }
    }
}

} // verus!
