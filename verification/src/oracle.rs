//! The escape-distance oracle: a breadth-first expansion from the
//! cat's cell outward over unobstructed adjacency, returning the least
//! number of steps to any edge cell, or the sentinel `CELL_COUNT` when
//! no escape route exists.
//!
//! The planner calls the oracle once per candidate placement, so the
//! neighbour lists are precomputed once into an adjacency table and
//! shared across calls.

use vstd::prelude::*;
use vstd::pervasive::VecAdditionalExecFns;

use crate::board::{Board, BoardModel};
use crate::geometry::{
    adjacent, lemma_adjacent_symmetric, lemma_index_pos_at, lemma_neighbor_list_adjacent,
    lemma_neighbor_list_valid, lemma_pos_at_index, pos_at, position_at, Position, CELL_COUNT,
};
use crate::paths::{
    escapable, is_escape_path, is_path, lemma_path_to_reach, lemma_reach_fixpoint,
    lemma_reach_monotonic, lemma_reach_open, lemma_reach_step, lemma_reach_to_path, newly_reached,
    open_at, reach,
};
use crate::tables::{
    bool_table, count_true, lemma_count_all_false, lemma_count_true_bounds,
    lemma_count_true_update,
};

verus! {

/// The cells of the expansion wave at step `k`: reached at `k` but not
/// earlier.
pub open spec fn frontier(m: BoardModel, k: nat) -> Set<int> {
    if k == 0 {
        reach(m, 0)
    } else {
        reach(m, k).difference(reach(m, (k - 1) as nat))
    }
}

/// What the oracle's result means: `d` is the exact length in steps of
/// a shortest escape path, zero exactly on an edge cell, and the
/// sentinel `CELL_COUNT` exactly when no escape path exists.
pub open spec fn oracle_result(m: BoardModel, d: usize) -> bool {
    &&& d <= CELL_COUNT
    &&& (d == CELL_COUNT <==> !escapable(m))
    &&& (d == 0 <==> m.cat.edge())
    &&& (d < CELL_COUNT ==> exists|s: Seq<Position>|
        is_escape_path(m, s) && s.len() == d + 1)
    &&& (d < CELL_COUNT ==> forall|s: Seq<Position>|
        is_escape_path(m, s) ==> s.len() >= d + 1)
}

/// A precomputed table of the neighbour list of every cell.
pub open spec fn adjacency_table_wf(t: Seq<Vec<Position>>) -> bool {
    &&& t.len() == CELL_COUNT as int
    &&& forall|j: int|
        0 <= j < CELL_COUNT as int ==> (#[trigger] t[j])@ == pos_at(j).neighbor_list()
}

/// Builds the neighbour-list table, one entry per cell.
pub fn build_adjacency() -> (t: Vec<Vec<Position>>)
    ensures
        adjacency_table_wf(t@),
{
    let mut t: Vec<Vec<Position>> = Vec::new();
    let mut j: usize = 0;
    while j < CELL_COUNT
        invariant
            j <= CELL_COUNT,
            t@.len() == j,
            forall|i: int| 0 <= i < j ==> (#[trigger] t@[i])@ == pos_at(i).neighbor_list(),
        decreases CELL_COUNT - j,
    {
        let p = position_at(j);
        t.push(p.neighbors());
        j = j + 1;
    }
    t
}

/// Whether any listed neighbour's cell is marked in the table.
pub(crate) fn any_neighbor_marked(nbs: &Vec<Position>, marks: &Vec<bool>) -> (f: bool)
    requires
        marks@.len() == CELL_COUNT as int,
        forall|w: int| 0 <= w < nbs@.len() ==> (#[trigger] nbs@[w]).valid(),
    ensures
        f == exists|w: int| 0 <= w < nbs@.len() && marks@[(#[trigger] nbs@[w]).index()],
{
    let mut f = false;
    let mut w: usize = 0;
    while w < nbs.len()
        invariant
            w <= nbs@.len(),
            marks@.len() == CELL_COUNT as int,
            forall|v: int| 0 <= v < nbs@.len() ==> (#[trigger] nbs@[v]).valid(),
            f == exists|v: int| 0 <= v < w && marks@[(#[trigger] nbs@[v]).index()],
        decreases nbs@.len() - w,
    {
        let nb = nbs[w];
        if marks[nb.idx()] {
            f = true;
        }
        w = w + 1;
    }
    f
}

/// Finds an edge cell among the marked cells of the wave.
fn find_edge_in_wave(current: &Vec<bool>) -> (res: Option<usize>)
    requires
        current@.len() == CELL_COUNT as int,
    ensures
        match res {
            Some(j) => j < CELL_COUNT && current@[j as int] && pos_at(j as int).edge(),
            None => forall|jj: int|
                0 <= jj < CELL_COUNT as int ==> !(current@[jj] && (#[trigger] pos_at(jj)).edge()),
        },
{
    let mut j: usize = 0;
    while j < CELL_COUNT
        invariant
            current@.len() == CELL_COUNT as int,
            j <= CELL_COUNT,
            forall|jj: int| 0 <= jj < j ==> !(current@[jj] && (#[trigger] pos_at(jj)).edge()),
        decreases CELL_COUNT - j,
    {
        if current[j] {
            let p = position_at(j);
            if p.is_edge() {
                return Some(j);
            }
        }
        j = j + 1;
    }
    None
}

/// The escape distance of the board, computed against a shared
/// adjacency table.
pub fn escape_distance_with(b: &Board, adj: &Vec<Vec<Position>>) -> (d: usize)
    requires
        b@.wf(),
        adjacency_table_wf(adj@),
    ensures
        oracle_result(b@, d),
{
    let ghost m = b@;
    let cat = b.cat_position();
    proof {
        lemma_index_pos_at(m.cat);
    }
    let ci = cat.idx();
    let mut visited = bool_table(CELL_COUNT, false);
    let mut current = bool_table(CELL_COUNT, false);
    let ghost blank = visited@;
    visited.set(ci, true);
    current.set(ci, true);
    let mut count: usize = 1;
    let mut d: usize = 0;
    proof {
        lemma_count_all_false(blank);
        lemma_count_true_update(blank, ci as int);
    }
    loop
        invariant
            b@ == m,
            m.wf(),
            adjacency_table_wf(adj@),
            visited@.len() == CELL_COUNT as int,
            current@.len() == CELL_COUNT as int,
            (d as int) < count as int,
            count <= CELL_COUNT,
            count as int == count_true(visited@),
            forall|j: int|
                0 <= j < CELL_COUNT as int ==> visited@[j] == reach(m, d as nat).contains(j),
            forall|j: int|
                0 <= j < CELL_COUNT as int ==> current@[j] == frontier(m, d as nat).contains(j),
            forall|j: int|
                0 <= j < CELL_COUNT as int && visited@[j] && !current@[j] ==> !(#[trigger] pos_at(
                    j,
                )).edge(),
        decreases CELL_COUNT - count,
    {
        // Look for an edge cell in the current wave.
        let found = find_edge_in_wave(&current);
        match found {
            Some(j) => {
                proof {
                    lemma_oracle_found(m, d as nat, j as int);
                }
                return d;
            },
            None => {},
        }
        // Expand the wave by one step.
        let ghost r_d = reach(m, d as nat);
        let ghost count0 = count as int;
        let mut next = bool_table(CELL_COUNT, false);
        let mut any_new = false;
        let mut j: usize = 0;
        while j < CELL_COUNT
            invariant
                b@ == m,
                m.wf(),
                adjacency_table_wf(adj@),
                r_d == reach(m, d as nat),
                visited@.len() == CELL_COUNT as int,
                current@.len() == CELL_COUNT as int,
                next@.len() == CELL_COUNT as int,
                j <= CELL_COUNT,
                count as int == count_true(visited@),
                count0 <= count as int,
                (d as int) < count0,
                any_new ==> count0 < count as int,
                count <= CELL_COUNT,
                forall|jj: int|
                    0 <= jj < CELL_COUNT as int ==> current@[jj] == frontier(m, d as nat).contains(
                        jj,
                    ),
                forall|jj: int| 0 <= jj < j ==> next@[jj] == newly_reached(m, d as nat, jj),
                forall|jj: int| j <= jj < CELL_COUNT as int ==> !next@[jj],
                forall|jj: int|
                    0 <= jj < j ==> visited@[jj] == (r_d.contains(jj) || newly_reached(
                        m,
                        d as nat,
                        jj,
                    )),
                forall|jj: int| j <= jj < CELL_COUNT as int ==> visited@[jj] == r_d.contains(jj),
                any_new == exists|jj: int| 0 <= jj < j && newly_reached(m, d as nat, jj),
                forall|jj: int|
                    0 <= jj < CELL_COUNT as int && current@[jj] ==> !(#[trigger] pos_at(
                        jj,
                    )).edge(),
                forall|jj: int|
                    0 <= jj < CELL_COUNT as int && r_d.contains(jj) && !current@[jj] ==> !(
                    #[trigger] pos_at(jj)).edge(),
            decreases CELL_COUNT - j,
        {
            let p = position_at(j);
            if !visited[j] && !b.is_obstructed(p) {
                proof {
                    lemma_neighbor_list_valid(p);
                }
                let f = any_neighbor_marked(&adj[j], &current);
                proof {
                    lemma_scan_meaning(m, d as nat, j as int, adj@[j as int]@, current@, f);
                }
                if f {
                    proof {
                        lemma_count_true_update(visited@, j as int);
                        lemma_count_true_bounds(visited@.update(j as int, true));
                    }
                    next.set(j, true);
                    visited.set(j, true);
                    count = count + 1;
                    any_new = true;
                }
            } else {
                proof {
                    assert(!newly_reached(m, d as nat, j as int));
                }
            }
            j = j + 1;
        }
        proof {
            assert forall|jj: int| 0 <= jj < CELL_COUNT as int implies visited@[jj] == reach(
                m,
                (d + 1) as nat,
            ).contains(jj) by {
                lemma_reach_step(m, d as nat, jj);
                assert((d as nat + 1) as nat == (d + 1) as nat);
            }
        }
        if !any_new {
            proof {
                lemma_oracle_exhausted(m, d as nat, visited@, current@);
                if m.cat.edge() {
                    assert(is_escape_path(m, seq![m.cat]));
                }
            }
            return CELL_COUNT;
        }
        current = next;
        d = d + 1;
        proof {
            lemma_reach_open(m, d as nat);
            lemma_reach_open(m, (d - 1) as nat);
            assert forall|jj: int| 0 <= jj < CELL_COUNT as int implies current@[jj] == frontier(
                m,
                d as nat,
            ).contains(jj) by {
                assert(newly_reached(m, (d - 1) as nat, jj) == (reach(m, d as nat).contains(jj)
                    && !reach(m, (d - 1) as nat).contains(jj))) by {
                    lemma_reach_step(m, (d - 1) as nat, jj);
                    assert(((d - 1) as nat + 1) as nat == d as nat);
                }
            }
            assert forall|jj: int|
                0 <= jj < CELL_COUNT as int && visited@[jj] && !current@[jj] implies !(
            #[trigger] pos_at(jj)).edge() by {
                if !r_d.contains(jj) {
                    assert(newly_reached(m, (d - 1) as nat, jj));
                    assert(current@[jj]);
                }
            }
        }
    }
}

/// What the neighbour scan of cell `j` decides: some reached cell of
/// the current wave is adjacent to `j`.
proof fn lemma_scan_meaning(
    m: BoardModel,
    d: nat,
    j: int,
    nbs: Seq<Position>,
    current: Seq<bool>,
    f: bool,
)
    requires
        m.wf(),
        0 <= j < CELL_COUNT as int,
        !m.walls[j],
        !reach(m, d).contains(j),
        nbs == pos_at(j).neighbor_list(),
        current.len() == CELL_COUNT as int,
        forall|jj: int|
            0 <= jj < CELL_COUNT as int ==> current[jj] == frontier(m, d).contains(jj),
        f == exists|w: int| 0 <= w < nbs.len() && current[(#[trigger] nbs[w]).index()],
    ensures
        f == newly_reached(m, d, j),
{
    lemma_pos_at_index(j);
    let p = pos_at(j);
    lemma_neighbor_list_valid(p);
    if f {
        let w = choose|w: int| 0 <= w < nbs.len() && current[(#[trigger] nbs[w]).index()];
        let q = nbs[w];
        assert(nbs.contains(q));
        lemma_neighbor_list_adjacent(p, q);
        lemma_adjacent_symmetric(p, q);
        lemma_index_pos_at(q);
        let i = q.index();
        assert(frontier(m, d).contains(i));
        assert(reach(m, d).contains(i));
        assert(adjacent(pos_at(i), pos_at(j)));
        assert(newly_reached(m, d, j));
    } else {
        if newly_reached(m, d, j) {
            let i = choose|i: int| reach(m, d).contains(i) && adjacent(pos_at(i), pos_at(j));
            lemma_reach_open(m, d);
            lemma_pos_at_index(i);
            if frontier(m, d).contains(i) {
                lemma_adjacent_symmetric(pos_at(i), pos_at(j));
                lemma_neighbor_list_adjacent(p, pos_at(i));
                assert(nbs.contains(pos_at(i)));
                let w = choose|w: int| 0 <= w < nbs.len() && nbs[w] == pos_at(i);
                assert(current[(nbs[w]).index()]);
                assert(false);
            } else {
                assert(d > 0 && reach(m, (d - 1) as nat).contains(i));
                lemma_reach_step(m, (d - 1) as nat, j);
                assert(((d - 1) as nat + 1) as nat == d);
                assert(newly_reached(m, (d - 1) as nat, j));
                assert(reach(m, d).contains(j));
                assert(false);
            }
        }
    }
}

/// When an edge cell appears in the wave at step `d`, the oracle's
/// answer is exactly `d`.
proof fn lemma_oracle_found(m: BoardModel, d: nat, j: int)
    requires
        m.wf(),
        d < CELL_COUNT as int,
        0 <= j < CELL_COUNT as int,
        frontier(m, d).contains(j),
        pos_at(j).edge(),
        forall|jj: int|
            0 <= jj < CELL_COUNT as int && reach(m, d).contains(jj) && !frontier(m, d).contains(jj)
                ==> !(#[trigger] pos_at(jj)).edge(),
    ensures
        oracle_result(m, d as usize),
{
    lemma_index_pos_at(m.cat);
    assert(reach(m, d).contains(j));
    lemma_reach_to_path(m, d, j);
    let s0 = choose|s: Seq<Position>|
        is_path(m, s) && s[0] == m.cat && s.last() == pos_at(j) && s.len() <= d + 1;
    assert(is_escape_path(m, s0));
    assert forall|s: Seq<Position>| is_escape_path(m, s) implies s.len() >= d + 1 by {
        if s.len() < d + 1 {
            let k = (s.len() - 1) as nat;
            lemma_path_to_reach(m, s, k);
            lemma_reach_monotonic(m, k, (d - 1) as nat);
            lemma_reach_monotonic(m, (d - 1) as nat, d);
            let e = s.last().index();
            lemma_index_pos_at(s.last());
            assert(reach(m, (d - 1) as nat).contains(e));
            assert(reach(m, d).contains(e) && !frontier(m, d).contains(e));
            assert(!pos_at(e).edge());
            assert(false);
        }
    }
    assert(s0.len() == d + 1);
    assert(exists|s: Seq<Position>| is_escape_path(m, s) && s.len() == d as usize + 1);
    if d == 0 {
        assert(reach(m, 0).contains(j));
        assert(j == m.cat.index());
        assert(m.cat.edge());
    } else {
        if m.cat.edge() {
            lemma_reach_monotonic(m, 0, (d - 1) as nat);
            assert(reach(m, (d - 1) as nat).contains(m.cat.index()));
            assert(reach(m, d).contains(m.cat.index()) && !frontier(m, d).contains(m.cat.index()));
            assert(!pos_at(m.cat.index()).edge());
            assert(false);
        }
    }
}

/// When a step adds no cell and no reached cell is an edge, no escape
/// path exists at all.
proof fn lemma_oracle_exhausted(m: BoardModel, d: nat, visited: Seq<bool>, current: Seq<bool>)
    requires
        m.wf(),
        visited.len() == CELL_COUNT as int,
        current.len() == CELL_COUNT as int,
        forall|jj: int| 0 <= jj < CELL_COUNT as int ==> visited[jj] == reach(m, d + 1).contains(jj),
        forall|jj: int| 0 <= jj < CELL_COUNT as int ==> !newly_reached(m, d, jj),
        forall|jj: int| 0 <= jj < CELL_COUNT as int ==> current[jj] == frontier(m, d).contains(jj),
        forall|jj: int|
            0 <= jj < CELL_COUNT as int && current[jj] ==> !(#[trigger] pos_at(jj)).edge(),
        forall|jj: int|
            0 <= jj < CELL_COUNT as int && visited[jj] && !current[jj] ==> !(#[trigger] pos_at(
                jj,
            )).edge(),
    ensures
        !escapable(m),
{
    lemma_reach_open(m, d);
    lemma_reach_open(m, (d + 1) as nat);
    assert(reach(m, d + 1) =~= reach(m, d)) by {
        assert forall|j: int| #[trigger]
            reach(m, d + 1).contains(j) implies reach(m, d).contains(j) by {
            lemma_reach_step(m, d, j);
        }
        assert forall|j: int| #[trigger]
            reach(m, d).contains(j) implies reach(m, d + 1).contains(j) by {
            lemma_reach_monotonic(m, d, d + 1);
        }
    }
    assert forall|s: Seq<Position>| !is_escape_path(m, s) by {
        if is_escape_path(m, s) {
            let k = (s.len() - 1) as nat;
            lemma_path_to_reach(m, s, k);
            let e = s.last().index();
            lemma_index_pos_at(s.last());
            if k <= d {
                lemma_reach_monotonic(m, k, d);
            } else {
                lemma_reach_fixpoint(m, d, k);
            }
            assert(reach(m, d).contains(e));
            assert(reach(m, d + 1).contains(e));
            assert(visited[e]);
            assert(!pos_at(e).edge());
            assert(false);
        }
    }
}

/// The oracle's contract determines its answer: two results that both
/// satisfy it are equal, so the oracle is a pure function of the board
/// snapshot.
pub proof fn lemma_oracle_result_unique(m: BoardModel, d1: usize, d2: usize)
    requires
        oracle_result(m, d1),
        oracle_result(m, d2),
    ensures
        d1 == d2,
{
    if d1 < CELL_COUNT && d2 < CELL_COUNT {
        let s1 = choose|s: Seq<Position>| is_escape_path(m, s) && s.len() == d1 + 1;
        let s2 = choose|s: Seq<Position>| is_escape_path(m, s) && s.len() == d2 + 1;
        assert(s1.len() >= d2 + 1);
        assert(s2.len() >= d1 + 1);
    }
}

/// The escape distance of the board: the least number of unobstructed
/// hops from the cat's cell to any edge cell, or the sentinel
/// `CELL_COUNT` when no such route exists.
pub fn escape_distance(b: &Board) -> (d: usize)
    requires
        b@.wf(),
    ensures
        oracle_result(b@, d),
{
    let adj = build_adjacency();
    escape_distance_with(b, &adj)
}

} // verus!
