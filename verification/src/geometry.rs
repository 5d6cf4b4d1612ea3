//! Grid geometry: coordinate validity, the edge test, and the
//! six-direction adjacency rule of the staggered hexagonal layout.
//!
//! Odd rows are horizontally offset by half a cell relative to even
//! rows, so the coordinates of the diagonal neighbours of a cell depend
//! on the parity of its row.

use vstd::prelude::*;

verus! {

/// Number of rows on the board.
pub const ROWS: i8 = 11;
/// Number of columns on the board.
pub const COLS: i8 = 10;
/// Total number of cells on the board.
pub const CELL_COUNT: usize = 110;

/// A cell coordinate: row and column.  Positions are plain immutable
/// values; a valid position also has a linear index that serves as its
/// key into per-cell tables.  The derived order is row-major and, on
/// valid positions, agrees with the linear index, so positions sort
/// deterministically in ordered containers.
#[derive(Clone, Copy, PartialEq, Eq, Structural, Debug, Hash, PartialOrd, Ord)]
pub struct Position {
    pub r: i8,
    pub c: i8,
}

impl Position {
    /// The linear row-major index of the position.
    pub open spec fn index(self) -> int {
        self.r * (COLS as int) + self.c
    }

    /// Whether the position lies within the board bounds.
    pub open spec fn valid(self) -> bool {
        0 <= self.r < ROWS as int && 0 <= self.c < COLS as int
    }

    /// Whether the position lies on the outer boundary of the grid.
    pub open spec fn edge(self) -> bool {
        self.r == 0 || self.r as int == ROWS as int - 1
            || self.c == 0 || self.c as int == COLS as int - 1
    }

    /// The horizontal offset term of the row: odd rows sit half a cell
    /// to the right of even rows, which shifts their diagonal
    /// neighbours one column to the left.
    pub open spec fn row_offset(self) -> int {
        (self.r as int + 1) % 2
    }

    /// The six adjacent coordinates in the canonical enumeration
    /// order: west, north-west, north-east, east, south-east,
    /// south-west.  This order is the tie-break order of the cat
    /// policy, so it must never change.
    pub open spec fn candidate(self, k: int) -> Position {
        let o = self.row_offset();
        if k == 0 {
            Position { r: self.r, c: (self.c as int - 1) as i8 }
        } else if k == 1 {
            Position { r: (self.r as int - 1) as i8, c: (self.c as int - o) as i8 }
        } else if k == 2 {
            Position { r: (self.r as int - 1) as i8, c: (self.c as int - o + 1) as i8 }
        } else if k == 3 {
            Position { r: self.r, c: (self.c as int + 1) as i8 }
        } else if k == 4 {
            Position { r: (self.r as int + 1) as i8, c: (self.c as int - o + 1) as i8 }
        } else {
            Position { r: (self.r as int + 1) as i8, c: (self.c as int - o) as i8 }
        }
    }

    /// The valid adjacent positions, in canonical order.  Computed
    /// coordinates that fall outside the board are omitted, never
    /// wrapped.
    pub open spec fn neighbor_list(self) -> Seq<Position> {
        self.neighbor_list_from(0)
    }

    /// The valid candidates among those numbered `k` and upward.
    pub open spec fn neighbor_list_from(self, k: int) -> Seq<Position>
        decreases 6 - k,
    {
        if k < 0 || k >= 6 {
            Seq::empty()
        } else if self.candidate(k).valid() {
            seq![self.candidate(k)] + self.neighbor_list_from(k + 1)
        } else {
            self.neighbor_list_from(k + 1)
        }
    }

    /// Creates a position from row and column.
    pub fn new(r: i8, c: i8) -> (p: Position)
        ensures
            p == (Position { r, c }),
    {
        Position { r, c }
    }

    /// The linear row-major index, as an array subscript.
    pub fn idx(&self) -> (i: usize)
        requires
            self.valid(),
        ensures
            i == self.index(),
            i < CELL_COUNT,
    {
        (self.r as usize) * 10 + (self.c as usize)
    }

    /// Bounds test.
    pub fn is_valid(&self) -> (b: bool)
        ensures
            b == self.valid(),
    {
        self.r >= 0 && self.r < ROWS && self.c >= 0 && self.c < COLS
    }

    /// Boundary test.
    pub fn is_edge(&self) -> (b: bool)
        ensures
            b == self.edge(),
    {
        self.r == 0 || self.r == ROWS - 1 || self.c == 0 || self.c == COLS - 1
    }

    /// The adjacent coordinate numbered `k` in canonical order.
    fn candidate_at(&self, k: usize) -> (p: Position)
        requires
            self.valid(),
            k < 6,
        ensures
            p == self.candidate(k as int),
    {
        let o: i8 = (self.r + 1) % 2;
        if k == 0 {
            Position { r: self.r, c: self.c - 1 }
        } else if k == 1 {
            Position { r: self.r - 1, c: self.c - o }
        } else if k == 2 {
            Position { r: self.r - 1, c: self.c - o + 1 }
        } else if k == 3 {
            Position { r: self.r, c: self.c + 1 }
        } else if k == 4 {
            Position { r: self.r + 1, c: self.c - o + 1 }
        } else {
            Position { r: self.r + 1, c: self.c - o }
        }
    }

    /// The valid adjacent positions in canonical order.
    pub fn neighbors(&self) -> (ns: Vec<Position>)
        requires
            self.valid(),
        ensures
            ns@ == self.neighbor_list(),
    {
        let mut ns: Vec<Position> = Vec::new();
        let mut k: usize = 0;
        while k < 6
            invariant
                self.valid(),
                k <= 6,
                self.neighbor_list() == ns@ + self.neighbor_list_from(k as int),
            decreases 6 - k,
        {
            let p = self.candidate_at(k);
            if p.is_valid() {
                ns.push(p);
            }
            proof {
                assert(self.neighbor_list() =~= ns@ + self.neighbor_list_from(k + 1));
            }
            k = k + 1;
        }
        proof {
            assert(ns@ =~= self.neighbor_list());
        }
        ns
    }
}

/// Two valid positions are adjacent when one is among the six
/// candidates of the other.
pub open spec fn adjacent(p: Position, q: Position) -> bool {
    p.valid() && q.valid() && exists|k: int| 0 <= k < 6 && p.candidate(k) == q
}

/// The position with the given linear index.
pub open spec fn pos_at(i: int) -> Position {
    Position { r: (i / 10) as i8, c: (i % 10) as i8 }
}

/// The position with the given linear index.
pub fn position_at(i: usize) -> (p: Position)
    requires
        i < CELL_COUNT,
    ensures
        p == pos_at(i as int),
        p.valid(),
        p.index() == i,
{
    let p = Position { r: (i / 10) as i8, c: (i % 10) as i8 };
    proof {
        lemma_pos_at_index(i as int);
    }
    p
}

/// Linear indices and valid positions are in bijection.
pub proof fn lemma_pos_at_index(i: int)
    requires
        0 <= i < CELL_COUNT as int,
    ensures
        pos_at(i).valid(),
        pos_at(i).index() == i,
{
    assert(0 <= i / 10 < 11 && 0 <= i % 10 < 10 && (i / 10) * 10 + i % 10 == i)
        by (nonlinear_arith)
        requires 0 <= i < 110;
}

/// A valid position is recovered from its own linear index.
pub proof fn lemma_index_pos_at(p: Position)
    requires
        p.valid(),
    ensures
        0 <= p.index() < CELL_COUNT as int,
        pos_at(p.index()) == p,
{
    let r = p.r as int;
    let c = p.c as int;
    assert(0 <= r * 10 + c < 110 && (r * 10 + c) / 10 == r && (r * 10 + c) % 10 == c)
        by (nonlinear_arith)
        requires 0 <= r < 11 && 0 <= c < 10;
}

/// The neighbour list holds exactly the adjacent positions.
pub proof fn lemma_neighbor_list_adjacent(p: Position, q: Position)
    requires
        p.valid(),
    ensures
        p.neighbor_list().contains(q) <==> adjacent(p, q),
{
    lemma_neighbor_list_from_adjacent(p, q, 0);
}

proof fn lemma_neighbor_list_from_adjacent(p: Position, q: Position, k: int)
    requires
        p.valid(),
        0 <= k <= 6,
    ensures
        p.neighbor_list_from(k).contains(q)
            <==> (q.valid() && exists|j: int| k <= j < 6 && p.candidate(j) == q),
    decreases 6 - k,
{
    if k < 6 {
        lemma_neighbor_list_from_adjacent(p, q, k + 1);
        if q.valid() && exists|j: int| k <= j < 6 && p.candidate(j) == q {
            let j = choose|j: int| k <= j < 6 && p.candidate(j) == q;
            if j == k {
                assert(p.neighbor_list_from(k)[0] == q);
            } else {
                assert(p.neighbor_list_from(k + 1).contains(q));
                if p.candidate(k).valid() {
                    let w = choose|w: int|
                        0 <= w < p.neighbor_list_from(k + 1).len()
                            && #[trigger] p.neighbor_list_from(k + 1)[w] == q;
                    assert(p.neighbor_list_from(k)[w + 1] == q);
                }
            }
        }
        if p.neighbor_list_from(k).contains(q) {
            let w = choose|w: int|
                0 <= w < p.neighbor_list_from(k).len() && #[trigger] p.neighbor_list_from(k)[w] == q;
            if p.candidate(k).valid() && w == 0 {
                assert(p.candidate(k) == q);
            } else if p.candidate(k).valid() {
                assert(p.neighbor_list_from(k + 1)[w - 1] == q);
            }
        }
    }
}

/// Every listed neighbour is valid.
pub proof fn lemma_neighbor_list_valid(p: Position)
    requires
        p.valid(),
    ensures
        forall|w: int|
            0 <= w < p.neighbor_list().len() ==> (#[trigger] p.neighbor_list()[w]).valid(),
{
    lemma_neighbor_list_from_valid(p, 0);
}

proof fn lemma_neighbor_list_from_valid(p: Position, k: int)
    requires
        p.valid(),
        0 <= k <= 6,
    ensures
        forall|w: int|
            0 <= w < p.neighbor_list_from(k).len()
                ==> (#[trigger] p.neighbor_list_from(k)[w]).valid(),
    decreases 6 - k,
{
    if k < 6 {
        lemma_neighbor_list_from_valid(p, k + 1);
        assert forall|w: int|
            0 <= w < p.neighbor_list_from(k).len()
                implies (#[trigger] p.neighbor_list_from(k)[w]).valid() by {
            if p.candidate(k).valid() && w > 0 {
                assert(p.neighbor_list_from(k)[w] == p.neighbor_list_from(k + 1)[w - 1]);
            } else if !p.candidate(k).valid() {
                assert(p.neighbor_list_from(k)[w] == p.neighbor_list_from(k + 1)[w]);
            }
        }
    }
}

/// Adjacency is symmetric: the staggered offsets of two neighbouring
/// rows cancel out.
pub proof fn lemma_adjacent_symmetric(p: Position, q: Position)
    requires
        adjacent(p, q),
    ensures
        adjacent(q, p),
{
    let k = choose|k: int| 0 <= k < 6 && p.candidate(k) == q;
    assert((p.r as int + 1) % 2 + (p.r as int) % 2 == 1);
    assert((q.r as int + 1) % 2 + (q.r as int) % 2 == 1);
    if k == 0 {
        assert(q.candidate(3) == p);
    } else if k == 1 {
        assert(q.row_offset() == 1 - p.row_offset());
        assert(q.candidate(4) == p);
    } else if k == 2 {
        assert(q.row_offset() == 1 - p.row_offset());
        assert(q.candidate(5) == p);
    } else if k == 3 {
        assert(q.candidate(0) == p);
    } else if k == 4 {
        assert(q.row_offset() == 1 - p.row_offset());
        assert(q.candidate(1) == p);
    } else {
        assert(q.row_offset() == 1 - p.row_offset());
        assert(q.candidate(2) == p);
    }
}

/// Distinct valid positions have distinct linear indices.
pub proof fn lemma_index_injective(p: Position, q: Position)
    requires
        p.valid(),
        q.valid(),
        p.index() == q.index(),
    ensures
        p == q,
{
    lemma_index_pos_at(p);
    lemma_index_pos_at(q);
}

} // verus!
