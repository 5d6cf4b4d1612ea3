//! Escape routes as mathematical objects: unobstructed paths over the
//! adjacency relation, and the cells reachable from the cat within a
//! bounded number of steps.
//!
//! These spec functions give the escape-distance oracle its meaning:
//! the oracle's result is characterised in terms of the existence and
//! length of escape paths.

use vstd::prelude::*;

use crate::board::BoardModel;
use crate::geometry::{
    adjacent, lemma_index_pos_at, lemma_pos_at_index, pos_at, Position, CELL_COUNT,
};

verus! {

/// A cell the cat may stand on or cross: in bounds and free of walls.
pub open spec fn open_at(m: BoardModel, p: Position) -> bool {
    p.valid() && !m.walls[p.index()]
}

/// A walk over open cells, each step moving to an adjacent cell.
pub open spec fn is_path(m: BoardModel, s: Seq<Position>) -> bool {
    &&& s.len() >= 1
    &&& forall|i: int| 0 <= i < s.len() ==> open_at(m, #[trigger] s[i])
    &&& forall|i: int| 0 <= i < s.len() - 1 ==> adjacent(#[trigger] s[i], s[i + 1])
}

/// A path from the cat's cell to some edge cell.
pub open spec fn is_escape_path(m: BoardModel, s: Seq<Position>) -> bool {
    is_path(m, s) && s[0] == m.cat && s.last().edge()
}

/// Whether any escape route exists at all.
pub open spec fn escapable(m: BoardModel) -> bool {
    exists|s: Seq<Position>| is_escape_path(m, s)
}

/// The linear indices of the cells reachable from the cat in at most
/// `k` steps over open cells.
pub open spec fn reach(m: BoardModel, k: nat) -> Set<int>
    decreases k,
{
    if k == 0 {
        Set::new(|j: int| j == m.cat.index())
    } else {
        reach(m, (k - 1) as nat).union(
            Set::new(
                |j: int|
                    0 <= j < CELL_COUNT as int && !m.walls[j] && exists|i: int|
                        reach(m, (k - 1) as nat).contains(i) && adjacent(pos_at(i), pos_at(j)),
            ),
        )
    }
}

/// A cell that joins the reachable set at step `k + 1`: open, not yet
/// reached, and adjacent to a reached cell.
pub open spec fn newly_reached(m: BoardModel, k: nat, j: int) -> bool {
    &&& 0 <= j < CELL_COUNT as int
    &&& !m.walls[j]
    &&& !reach(m, k).contains(j)
    &&& exists|i: int| reach(m, k).contains(i) && adjacent(pos_at(i), pos_at(j))
}

/// Unfolding of one reachability step.
pub proof fn lemma_reach_step(m: BoardModel, k: nat, j: int)
    ensures
        reach(m, k + 1).contains(j) <==> (reach(m, k).contains(j) || newly_reached(m, k, j)),
{
    assert(reach(m, k + 1) == reach(m, ((k + 1) as nat - 1) as nat).union(
        Set::new(
            |j: int|
                0 <= j < CELL_COUNT as int && !m.walls[j] && exists|i: int|
                    reach(m, ((k + 1) as nat - 1) as nat).contains(i) && adjacent(
                        pos_at(i),
                        pos_at(j),
                    ),
        ),
    ));
}

/// Reachable sets only grow with the step count.
pub proof fn lemma_reach_monotonic(m: BoardModel, k: nat, l: nat)
    requires
        k <= l,
    ensures
        reach(m, k).subset_of(reach(m, l)),
    decreases l,
{
    if k < l {
        lemma_reach_monotonic(m, k, (l - 1) as nat);
    }
}

/// Every reached cell is in bounds and open (on a well-formed board).
pub proof fn lemma_reach_open(m: BoardModel, k: nat)
    requires
        m.wf(),
    ensures
        forall|j: int|
            #[trigger] reach(m, k).contains(j) ==> 0 <= j < CELL_COUNT as int && !m.walls[j],
    decreases k,
{
    lemma_index_pos_at(m.cat);
    if k > 0 {
        lemma_reach_open(m, (k - 1) as nat);
        assert forall|j: int| #[trigger]
            reach(m, k).contains(j) implies 0 <= j < CELL_COUNT as int && !m.walls[j] by {
            lemma_reach_step(m, (k - 1) as nat, j);
            assert(((k - 1) as nat + 1) as nat == k);
        }
    }
}

/// Appending an adjacent open cell keeps a path a path.
pub proof fn lemma_path_push(m: BoardModel, s: Seq<Position>, q: Position)
    requires
        is_path(m, s),
        open_at(m, q),
        adjacent(s.last(), q),
    ensures
        is_path(m, s.push(q)),
        s.push(q)[0] == s[0],
        s.push(q).last() == q,
{
    let t = s.push(q);
    assert forall|i: int| 0 <= i < t.len() - 1 implies adjacent(#[trigger] t[i], t[i + 1]) by {
        if i < s.len() - 1 {
            assert(t[i] == s[i] && t[i + 1] == s[i + 1]);
        } else {
            assert(t[i] == s.last() && t[i + 1] == q);
        }
    }
}

/// A path shortened by its last step is still a path.
pub proof fn lemma_path_prefix(m: BoardModel, s: Seq<Position>)
    requires
        is_path(m, s),
        s.len() >= 2,
    ensures
        is_path(m, s.drop_last()),
        s.drop_last()[0] == s[0],
        adjacent(s.drop_last().last(), s.last()),
{
    assert(adjacent(s[s.len() - 2], s[s.len() - 1]));
}

/// Walked backwards, a path is still a path: adjacency is symmetric.
pub proof fn lemma_path_reverse(m: BoardModel, s: Seq<Position>)
    requires
        is_path(m, s),
    ensures
        is_path(m, s.reverse()),
        s.reverse()[0] == s.last(),
        s.reverse().last() == s[0],
{
    let t = s.reverse();
    assert forall|i: int| 0 <= i < t.len() implies open_at(m, #[trigger] t[i]) by {
        assert(t[i] == s[s.len() - 1 - i]);
    }
    assert forall|i: int| 0 <= i < t.len() - 1 implies adjacent(#[trigger] t[i], t[i + 1]) by {
        let k = s.len() - 2 - i;
        assert(t[i] == s[k + 1] && t[i + 1] == s[k]);
        assert(adjacent(s[k], s[k + 1]));
        crate::geometry::lemma_adjacent_symmetric(s[k], s[k + 1]);
    }
}

/// Every cell reachable in `k` steps is the end of a path from the cat
/// of at most `k + 1` cells.
pub proof fn lemma_reach_to_path(m: BoardModel, k: nat, j: int)
    requires
        m.wf(),
        reach(m, k).contains(j),
    ensures
        exists|s: Seq<Position>|
            is_path(m, s) && s[0] == m.cat && s.last() == pos_at(j) && s.len() <= k + 1,
    decreases k,
{
    lemma_index_pos_at(m.cat);
    if k == 0 {
        let s = seq![m.cat];
        assert(is_path(m, s) && s[0] == m.cat && s.last() == pos_at(j) && s.len() <= k + 1);
    } else if reach(m, (k - 1) as nat).contains(j) {
        lemma_reach_to_path(m, (k - 1) as nat, j);
        let s = choose|s: Seq<Position>|
            is_path(m, s) && s[0] == m.cat && s.last() == pos_at(j) && s.len() <= (k - 1) as nat
                + 1;
        assert(is_path(m, s) && s[0] == m.cat && s.last() == pos_at(j) && s.len() <= k + 1);
    } else {
        let i = choose|i: int|
            reach(m, (k - 1) as nat).contains(i) && adjacent(pos_at(i), pos_at(j));
        lemma_reach_to_path(m, (k - 1) as nat, i);
        let s = choose|s: Seq<Position>|
            is_path(m, s) && s[0] == m.cat && s.last() == pos_at(i) && s.len() <= (k - 1) as nat
                + 1;
        lemma_pos_at_index(j);
        lemma_path_push(m, s, pos_at(j));
        let t = s.push(pos_at(j));
        assert(is_path(m, t) && t[0] == m.cat && t.last() == pos_at(j) && t.len() <= k + 1);
    }
}

/// The end of any path from the cat of at most `k + 1` cells is
/// reachable in `k` steps.
pub proof fn lemma_path_to_reach(m: BoardModel, s: Seq<Position>, k: nat)
    requires
        m.wf(),
        is_path(m, s),
        s[0] == m.cat,
        s.len() <= k + 1,
    ensures
        reach(m, k).contains(s.last().index()),
    decreases s.len(),
{
    if s.len() == 1 {
        assert(reach(m, 0).contains(m.cat.index()));
        lemma_reach_monotonic(m, 0, k);
    } else {
        lemma_path_prefix(m, s);
        lemma_path_to_reach(m, s.drop_last(), (k - 1) as nat);
        let i = s.drop_last().last().index();
        let j = s.last().index();
        lemma_index_pos_at(s.drop_last().last());
        lemma_index_pos_at(s.last());
        assert(open_at(m, s.last()));
        assert(adjacent(pos_at(i), pos_at(j)));
        assert(reach(m, ((k - 1) as nat + 1) as nat).contains(j)) by {
            lemma_reach_step(m, (k - 1) as nat, j);
        }
        assert((((k - 1) as nat + 1) as nat) == k);
    }
}

/// Once a step adds nothing, no later step ever adds anything.
pub proof fn lemma_reach_fixpoint(m: BoardModel, k: nat, l: nat)
    requires
        reach(m, k + 1) == reach(m, k),
        k <= l,
    ensures
        reach(m, l) == reach(m, k),
    decreases l,
{
    if l > k {
        lemma_reach_fixpoint(m, k, (l - 1) as nat);
        assert forall|j: int| #[trigger]
            reach(m, l).contains(j) implies reach(m, k).contains(j) by {
            if !reach(m, (l - 1) as nat).contains(j) {
                lemma_reach_step(m, (l - 1) as nat, j);
                assert(newly_reached(m, (l - 1) as nat, j));
                let i = choose|i: int|
                    reach(m, (l - 1) as nat).contains(i) && adjacent(pos_at(i), pos_at(j));
                assert(reach(m, k).contains(i));
                lemma_reach_step(m, k, j);
            }
        }
        assert forall|j: int| #[trigger]
            reach(m, k).contains(j) implies reach(m, l).contains(j) by {
            lemma_reach_monotonic(m, k, l);
        }
        assert(reach(m, l) =~= reach(m, k));
    }
}

} // verus!
