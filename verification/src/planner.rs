//! The automated player: a best-first search over obstacle-placement
//! sequences, and the plan cache that serves an already-found sequence
//! turn by turn.
//!
//! The search explores hypothetical futures from cloned boards.  Each
//! explored state records the placement that produced it and its
//! parent, in an arena addressed by index; popping a state first
//! simulates the cat's forced response with the real cat policy.  When
//! a popped state's cat has no move, the chain of placements back to
//! the root is a trapping sequence, and `plan_traps` — proved of every
//! returned plan — says exactly that: replaying the placements in
//! order, each followed by the cat policy's response, is legal at
//! every step, never lets the cat reach the boundary, and ends with
//! the cat trapped.
//!
//! The search is also proved exhaustive: throughout the loop, every
//! trapping plan begins with the placements of some still-queued
//! state, so an emptied queue means no trapping sequence exists at
//! all — the "no forced win" answer is a theorem about the board, not
//! a shrug.

use vstd::prelude::*;
use vstd::pervasive::VecAdditionalExecFns;

use crate::board::{Board, BoardModel};
use crate::geometry::{pos_at, position_at, Position, CELL_COUNT};
use crate::oracle::{adjacency_table_wf, build_adjacency, escape_distance_with};
use crate::policy::cat_move_spec;

verus! {

/// The iteration ceiling of one search: after this many expansions the
/// planner gives up optimality and falls back to an arbitrary legal
/// placement, so a call always returns in bounded time.
pub const SEARCH_CEILING: usize = 50000;

/// Replaying `plan` on `m` — applying the head placement, then the cat
/// policy's response, then the rest — stays legal throughout and never
/// reaches an end of the board's life before the plan ends: no
/// intermediate cat response lands on an edge cell (the cat would have
/// escaped and the game would be over).  The final placement leaves
/// the cat policy with no move: the cat is trapped.
pub open spec fn plan_traps(m: BoardModel, plan: Seq<Position>) -> bool
    decreases plan.len(),
{
    if plan.len() == 0 {
        false
    } else {
        let p = plan[0];
        m.placeable(p) && {
            let m1 = m.place(p);
            if plan.len() == 1 {
                cat_move_spec(m1) is None
            } else {
                match cat_move_spec(m1) {
                    Some(q) => !q.edge() && plan_traps(m1.with_cat(q), plan.drop_first()),
                    None => false,
                }
            }
        }
    }
}

/// The board produced by replaying `plan` on `m`, with the cat's
/// response applied after every placement but the last.  `None` when a
/// placement is illegal, the cat gets trapped early, or an
/// intermediate cat response reaches an edge cell and ends the game.
pub open spec fn sim_partial(m: BoardModel, plan: Seq<Position>) -> Option<BoardModel>
    decreases plan.len(),
{
    if plan.len() == 0 {
        Some(m)
    } else {
        let p = plan[0];
        if !m.placeable(p) {
            None
        } else {
            let m1 = m.place(p);
            if plan.len() == 1 {
                Some(m1)
            } else {
                match cat_move_spec(m1) {
                    Some(q) => if q.edge() {
                        None
                    } else {
                        sim_partial(m1.with_cat(q), plan.drop_first())
                    },
                    None => None,
                }
            }
        }
    }
}

/// A simulation whose final board leaves the cat with no move is a
/// trapping plan.
proof fn lemma_sim_trapped(m: BoardModel, plan: Seq<Position>, b: BoardModel)
    requires
        plan.len() >= 1,
        sim_partial(m, plan) == Some(b),
        cat_move_spec(b) is None,
    ensures
        plan_traps(m, plan),
    decreases plan.len(),
{
    if plan.len() > 1 {
        let m1 = m.place(plan[0]);
        let q = cat_move_spec(m1)->Some_0;
        lemma_sim_trapped(m1.with_cat(q), plan.drop_first(), b);
    }
}

/// Extending a simulated plan by one legal placement extends the
/// simulation.
proof fn lemma_sim_extend(m: BoardModel, plan: Seq<Position>, b: BoardModel, q: Position, p: Position)
    requires
        plan.len() >= 1,
        sim_partial(m, plan) == Some(b),
        cat_move_spec(b) == Some(q),
        !q.edge(),
        b.with_cat(q).placeable(p),
    ensures
        sim_partial(m, plan.push(p)) == Some(b.with_cat(q).place(p)),
    decreases plan.len(),
{
    let m1 = m.place(plan[0]);
    assert(plan.push(p)[0] == plan[0]);
    assert(plan.push(p).drop_first() =~= plan.drop_first().push(p));
    if plan.len() == 1 {
        assert(m1 == b);
        assert(plan.push(p).drop_first() =~= seq![p]);
    } else {
        let q1 = cat_move_spec(m1)->Some_0;
        lemma_sim_extend(m1.with_cat(q1), plan.drop_first(), b, q, p);
    }
}

/// One sequence is an initial run of another.
spec fn is_prefix(pre: Seq<Position>, plan: Seq<Position>) -> bool {
    pre.len() <= plan.len() && pre == plan.take(pre.len() as int)
}

/// A fully replayed trapping plan ends with the cat policy out of
/// moves.
proof fn lemma_traps_end(m: BoardModel, plan: Seq<Position>, b: BoardModel)
    requires
        plan_traps(m, plan),
        sim_partial(m, plan) == Some(b),
    ensures
        cat_move_spec(b) is None,
    decreases plan.len(),
{
    if plan.len() > 1 {
        let m1 = m.place(plan[0]);
        let q = cat_move_spec(m1)->Some_0;
        lemma_traps_end(m1.with_cat(q), plan.drop_first(), b);
    }
}

/// Within a trapping plan, the board after `n` placements simulates,
/// the cat's pending response stays off the boundary, and the plan's
/// next placement is legal on the board after that response.
proof fn lemma_traps_prefix(m: BoardModel, plan: Seq<Position>, n: int)
    requires
        plan_traps(m, plan),
        1 <= n < plan.len(),
    ensures
        sim_partial(m, plan.take(n)) is Some,
        ({
            let b = sim_partial(m, plan.take(n))->Some_0;
            let q = cat_move_spec(b)->Some_0;
            &&& cat_move_spec(b) is Some
            &&& !q.edge()
            &&& b.with_cat(q).placeable(plan[n])
            &&& sim_partial(m, plan.take(n + 1)) == Some(b.with_cat(q).place(plan[n]))
        }),
    decreases n,
{
    let p0 = plan[0];
    let m1 = m.place(p0);
    let q0 = cat_move_spec(m1)->Some_0;
    let rest = plan.drop_first();
    let m2 = m1.with_cat(q0);
    assert(plan.len() >= 2);
    assert(plan_traps(m2, rest));
    assert(forall|j: int| 0 <= j < rest.len() ==> rest[j] == plan[j + 1]);
    assert(plan.take(n)[0] == p0);
    assert(plan.take(n + 1)[0] == p0);
    assert(plan.take(n).drop_first() =~= rest.take(n - 1));
    assert(plan.take(n + 1).drop_first() =~= rest.take(n));
    if n == 1 {
        assert(sim_partial(m, plan.take(1)) == Some(m1));
        assert(m2.placeable(rest[0]));
        assert(sim_partial(m2, rest.take(1)) == Some(m2.place(rest[0]))) by {
            assert(rest.take(1)[0] == rest[0]);
        }
        assert(sim_partial(m, plan.take(2)) == Some(m2.place(plan[1])));
    } else {
        lemma_traps_prefix(m2, rest, n - 1);
        assert(sim_partial(m, plan.take(n)) == sim_partial(m2, rest.take(n - 1)));
        assert(sim_partial(m, plan.take(n + 1)) == sim_partial(m2, rest.take(n)));
        assert(rest[n - 1] == plan[n]);
    }
}

/// One explored future: a board snapshot, the escape-distance
/// heuristic computed once at creation, and the link to the parent
/// state through the placement that produced this one.
pub struct SearchState {
    pub board: Board,
    pub heuristic: usize,
    pub depth: usize,
    pub link: Link,
}

/// How a state arose: the search root, or a placement on a parent.
#[derive(Clone, Copy)]
pub enum Link {
    Root,
    Child { parent: usize, placement: Position },
}

/// The placements leading from the root to state `i` of the arena.
pub open spec fn plan_of(arena: Seq<SearchState>, i: int) -> Seq<Position>
    decreases i,
{
    if 0 <= i < arena.len() {
        match arena[i].link {
            Link::Root => Seq::empty(),
            Link::Child { parent, placement } => {
                if 0 <= parent < i {
                    plan_of(arena, parent as int).push(placement)
                } else {
                    Seq::empty()
                }
            },
        }
    } else {
        Seq::empty()
    }
}

/// The arena invariant at one state: its board is the faithful replay
/// of its placements from the root, and parent links point backward.
pub open spec fn state_ok(root: BoardModel, arena: Seq<SearchState>, i: int) -> bool {
    &&& 0 <= i < arena.len()
    &&& arena[i].board@.wf()
    &&& match arena[i].link {
        Link::Root => arena[i].board@ == root,
        Link::Child { parent, placement } => 0 <= parent < i,
    }
    &&& sim_partial(root, plan_of(arena, i)) == Some(arena[i].board@)
}

/// Growing the arena never changes the plan of an existing state.
proof fn lemma_plan_of_push(arena: Seq<SearchState>, s: SearchState, i: int)
    requires
        0 <= i < arena.len(),
    ensures
        plan_of(arena.push(s), i) == plan_of(arena, i),
    decreases i,
{
    match arena[i].link {
        Link::Root => {},
        Link::Child { parent, placement } => {
            if 0 <= parent < i {
                lemma_plan_of_push(arena, s, parent as int);
            }
        },
    }
}

/// What the expansion step knows of the board it expands: the root
/// itself, or a simulated board whose pending cat response is `q`, a
/// move that did not reach the boundary.
pub open spec fn expansion_base(root: BoardModel, plan0: Seq<Position>, base: BoardModel) -> bool {
    if plan0.len() == 0 {
        base == root
    } else {
        exists|b: BoardModel, q: Position|
            sim_partial(root, plan0) == Some(b) && cat_move_spec(b) == Some(q) && !q.edge() && base
                == #[trigger] b.with_cat(q)
    }
}

/// A legal placement on an expansion base extends its plan's
/// simulation by that placement.
proof fn lemma_expand_child(root: BoardModel, plan0: Seq<Position>, base: BoardModel, p: Position)
    requires
        expansion_base(root, plan0, base),
        base.placeable(p),
    ensures
        sim_partial(root, plan0.push(p)) == Some(base.place(p)),
{
    if plan0.len() == 0 {
        assert(plan0.push(p)[0] == p);
        assert(plan0.push(p).len() == 1);
    } else {
        let (b, q) = choose|b: BoardModel, q: Position|
            sim_partial(root, plan0) == Some(b) && cat_move_spec(b) == Some(q) && !q.edge() && base
                == #[trigger] b.with_cat(q);
        lemma_sim_extend(root, plan0, b, q, p);
    }
}

/// Some queued state's placements begin the plan, so exploring onward
/// from that state can still reach the plan's end.
spec fn covered(arena: Seq<SearchState>, queue: Seq<usize>, plan: Seq<Position>) -> bool {
    exists|k: int|
        0 <= k < queue.len() && is_prefix(plan_of(arena, #[trigger] queue[k] as int), plan)
}

/// Coverage survives pushing one more state and queue entry.
proof fn lemma_covered_grow(
    arena: Seq<SearchState>,
    s: SearchState,
    queue: Seq<usize>,
    x: usize,
    plan: Seq<Position>,
)
    requires
        covered(arena, queue, plan),
        forall|k: int| 0 <= k < queue.len() ==> (#[trigger] queue[k]) < arena.len(),
    ensures
        covered(arena.push(s), queue.push(x), plan),
{
    let k = choose|k: int|
        0 <= k < queue.len() && is_prefix(plan_of(arena, #[trigger] queue[k] as int), plan);
    lemma_plan_of_push(arena, s, queue[k] as int);
    assert(queue.push(x)[k] == queue[k]);
    assert(is_prefix(plan_of(arena.push(s), queue.push(x)[k] as int), plan));
}

/// A plan covered before a pop but not after it ran through the popped
/// entry.
proof fn lemma_uncovered_ran_through(
    arena: Seq<SearchState>,
    queue_before: Seq<usize>,
    queue: Seq<usize>,
    bk: int,
    plan: Seq<Position>,
)
    requires
        0 <= bk < queue_before.len(),
        queue == queue_before.remove(bk),
        covered(arena, queue_before, plan),
        !covered(arena, queue, plan),
    ensures
        is_prefix(plan_of(arena, queue_before[bk] as int), plan),
{
    let k0 = choose|k0: int|
        0 <= k0 < queue_before.len() && is_prefix(
            plan_of(arena, #[trigger] queue_before[k0] as int),
            plan,
        );
    if k0 != bk {
        let k1: int = if k0 < bk {
            k0
        } else {
            k0 - 1
        };
        assert(queue[k1] == queue_before[k0]);
        assert(covered(arena, queue, plan));
    }
}

/// The plan runs through the state under expansion: its placements so
/// far are `plan0`, and the plan's next placement is legal on the
/// expansion base and extends the simulation there.
spec fn expansion_covers(
    root: BoardModel,
    plan0: Seq<Position>,
    base: BoardModel,
    plan: Seq<Position>,
) -> bool {
    &&& is_prefix(plan0, plan)
    &&& plan0.len() < plan.len()
    &&& base.placeable(plan[plan0.len() as int])
    &&& sim_partial(root, plan0.push(plan[plan0.len() as int])) == Some(
        base.place(plan[plan0.len() as int]),
    )
}

/// Every trapping plan runs through the root under expansion.
proof fn lemma_pending_root(root: BoardModel, plan: Seq<Position>)
    requires
        plan_traps(root, plan),
    ensures
        expansion_covers(root, Seq::empty(), root, plan),
{
    assert(Seq::<Position>::empty() =~= plan.take(0));
    let single = Seq::<Position>::empty().push(plan[0]);
    assert(single.len() == 1 && single[0] == plan[0]);
    assert(sim_partial(root, single) == Some(root.place(plan[0])));
}

/// A trapping plan that runs through a popped state runs through its
/// expansion base — and cannot end at the popped state itself, whose
/// cat still moved.
proof fn lemma_pending_child(
    root: BoardModel,
    plan0: Seq<Position>,
    pre: BoardModel,
    base: BoardModel,
    plan: Seq<Position>,
)
    requires
        plan_traps(root, plan),
        is_prefix(plan0, plan),
        plan0.len() >= 1,
        sim_partial(root, plan0) == Some(pre),
        cat_move_spec(pre) is Some,
        base == pre.with_cat(cat_move_spec(pre)->Some_0),
    ensures
        expansion_covers(root, plan0, base, plan),
{
    let n = plan0.len() as int;
    assert(plan.take(n) == plan0);
    if plan0.len() == plan.len() {
        assert(plan0 =~= plan);
        lemma_traps_end(root, plan, pre);
        assert(false);
    } else {
        lemma_traps_prefix(root, plan, n);
        assert(sim_partial(root, plan.take(n)) == Some(pre));
        assert(plan.take(n + 1) =~= plan0.push(plan[n]));
    }
}

/// Along a trapping plan, the cat's response at any state the plan
/// runs through stays off the boundary.
proof fn lemma_pending_response_off_edge(
    root: BoardModel,
    plan0: Seq<Position>,
    pre: BoardModel,
    plan: Seq<Position>,
)
    requires
        plan_traps(root, plan),
        is_prefix(plan0, plan),
        plan0.len() >= 1,
        sim_partial(root, plan0) == Some(pre),
        cat_move_spec(pre) is Some,
    ensures
        !(cat_move_spec(pre)->Some_0).edge(),
{
    let n = plan0.len() as int;
    assert(plan.take(n) == plan0);
    if plan0.len() == plan.len() {
        assert(plan0 =~= plan);
        lemma_traps_end(root, plan, pre);
    } else {
        lemma_traps_prefix(root, plan, n);
        assert(sim_partial(root, plan.take(n)) == Some(pre));
    }
}

/// Removes the queue entry whose state has the greatest heuristic,
/// breaking ties toward the deepest and then the newest entry, which
/// drives the search deep rather than broad across plateaus of equal
/// heuristic.
fn pop_best(queue: &mut Vec<usize>, arena: &Vec<SearchState>) -> (si: usize)
    requires
        old(queue)@.len() >= 1,
        forall|k: int| 0 <= k < old(queue)@.len() ==> (#[trigger] old(queue)@[k]) < arena@.len(),
    ensures
        si < arena@.len(),
        final(queue)@.len() == old(queue)@.len() - 1,
        forall|k: int| 0 <= k < final(queue)@.len() ==> (#[trigger] final(queue)@[k]) < arena@.len(),
        forall|k: int|
            0 <= k < old(queue)@.len() ==> arena@[#[trigger] old(queue)@[k] as int].heuristic
                <= arena@[si as int].heuristic,
        exists|bk: int|
            0 <= bk < old(queue)@.len() && old(queue)@[bk] == si && final(queue)@ == old(
                queue,
            )@.remove(bk),
{
    let mut best_k: usize = 0;
    let mut best_h: usize = arena[queue[0]].heuristic;
    let mut best_d: usize = arena[queue[0]].depth;
    let mut k: usize = 1;
    while k < queue.len()
        invariant
            queue@.len() >= 1,
            forall|kk: int| 0 <= kk < queue@.len() ==> (#[trigger] queue@[kk]) < arena@.len(),
            1 <= k <= queue@.len(),
            best_k < k,
            best_h == arena@[queue@[best_k as int] as int].heuristic,
            forall|kk: int|
                0 <= kk < k ==> arena@[#[trigger] queue@[kk] as int].heuristic <= best_h,
        decreases queue@.len() - k,
    {
        let h = arena[queue[k]].heuristic;
        let d = arena[queue[k]].depth;
        if h > best_h || (h == best_h && d >= best_d) {
            best_k = k;
            best_h = h;
            best_d = d;
        }
        k = k + 1;
    }
    let ghost bk = best_k as int;
    let si = queue.remove(best_k);
    proof {
        assert(old(queue)@[bk] == si && queue@ == old(queue)@.remove(bk));
        assert forall|kk: int|
            0 <= kk < queue@.len() implies (#[trigger] queue@[kk]) < arena@.len() by {
            assert(queue@[kk] == old(queue)@[if kk < best_k as int {
                kk
            } else {
                kk + 1
            }]);
        }
    }
    si
}

/// Rebuilds the placement sequence of a state by walking its parent
/// chain back to the root.
fn reconstruct_plan(arena: &Vec<SearchState>, si: usize) -> (plan: Vec<Position>)
    requires
        si < arena@.len(),
        forall|k: int|
            0 <= k < arena@.len() ==> match (#[trigger] arena@[k]).link {
                Link::Root => true,
                Link::Child { parent, placement } => 0 <= parent < k,
            },
    ensures
        plan@ == plan_of(arena@, si as int),
{
    let mut rev: Vec<Position> = Vec::new();
    let mut cur = si;
    let mut done = false;
    while !done
        invariant
            cur < arena@.len(),
            forall|k: int|
                0 <= k < arena@.len() ==> match (#[trigger] arena@[k]).link {
                    Link::Root => true,
                    Link::Child { parent, placement } => 0 <= parent < k,
                },
            plan_of(arena@, si as int) == plan_of(arena@, cur as int) + rev@.reverse(),
            done ==> plan_of(arena@, cur as int) == Seq::<Position>::empty(),
        decreases (if done {
            0int
        } else {
            1int
        }), cur,
    {
        let link = arena[cur].link;
        match link {
            Link::Root => {
                done = true;
            },
            Link::Child { parent, placement } => {
                proof {
                    assert(rev@.push(placement).reverse() =~= seq![placement] + rev@.reverse());
                    assert(plan_of(arena@, parent as int) + (seq![placement] + rev@.reverse())
                        =~= plan_of(arena@, parent as int).push(placement) + rev@.reverse());
                }
                rev.push(placement);
                cur = parent;
            },
        }
    }
    let n = rev.len();
    let mut plan: Vec<Position> = Vec::new();
    let mut w: usize = 0;
    while w < n
        invariant
            n == rev@.len(),
            w <= n,
            plan@.len() == w,
            forall|i: int| 0 <= i < w ==> plan@[i] == rev@[n - 1 - i],
        decreases n - w,
    {
        plan.push(rev[n - 1 - w]);
        w = w + 1;
    }
    proof {
        assert(plan@ =~= rev@.reverse());
        assert(plan_of(arena@, si as int) =~= plan@);
    }
    plan
}

/// The outcome of one planning search.
pub enum SearchOutcome {
    /// A trapping sequence was found: applying these placements in
    /// order, interleaved with the cat policy's responses, traps the
    /// cat.
    Win(Vec<Position>),
    /// The whole search space was exhausted with no forced win: a
    /// distinct outcome, not a failure, and a proven statement — no
    /// trapping sequence exists from the searched board at all.
    NoForcedWin,
    /// The iteration ceiling was hit; the placement is merely legal.
    Fallback(Position),
}

/// Scans for any legal placement, for the over-ceiling fallback.  Only
/// a board with no placeable cell at all yields no placement.
fn fallback_placement(board: &Board) -> (r: SearchOutcome)
    requires
        board@.wf(),
    ensures
        match r {
            SearchOutcome::Win(plan) => false,
            SearchOutcome::Fallback(p) => board@.placeable(p),
            SearchOutcome::NoForcedWin => forall|p: Position| !board@.placeable(p),
        },
{
    let cat = board.cat_position();
    let mut i: usize = 0;
    while i < CELL_COUNT
        invariant
            board@.wf(),
            cat == board@.cat,
            i <= CELL_COUNT,
            forall|j: int| 0 <= j < i ==> !board@.placeable(#[trigger] pos_at(j)),
        decreases CELL_COUNT - i,
    {
        let p = position_at(i);
        if !board.is_obstructed(p) && !(p.r == cat.r && p.c == cat.c) {
            return SearchOutcome::Fallback(p);
        }
        i = i + 1;
    }
    proof {
        assert forall|p: Position| !board@.placeable(p) by {
            if p.valid() {
                crate::geometry::lemma_index_pos_at(p);
                assert(!board@.placeable(pos_at(p.index())));
            }
        }
    }
    SearchOutcome::NoForcedWin
}

/// Best-first search for a trapping sequence from the given board,
/// under the default iteration ceiling.
pub fn search_plan(board: &Board) -> (r: SearchOutcome)
    requires
        board@.wf(),
        !board@.cat.edge(),
    ensures
        match r {
            SearchOutcome::Win(plan) => plan@.len() >= 1 && plan_traps(board@, plan@),
            SearchOutcome::Fallback(p) => board@.placeable(p),
            SearchOutcome::NoForcedWin => forall|plan: Seq<Position>| !plan_traps(board@, plan),
        },
{
    search_plan_with_ceiling(board, SEARCH_CEILING)
}

/// Best-first search for a trapping sequence from the given board.
///
/// Returns `Win(plan)` with a proved trapping plan; `NoForcedWin` when
/// the search space is exhausted without one, which proves that no
/// trapping sequence exists at all from this board; or `Fallback` with
/// an arbitrary legal placement once the iteration ceiling is reached.
pub fn search_plan_with_ceiling(board: &Board, ceiling: usize) -> (r: SearchOutcome)
    requires
        board@.wf(),
        !board@.cat.edge(),
    ensures
        match r {
            SearchOutcome::Win(plan) => plan@.len() >= 1 && plan_traps(board@, plan@),
            SearchOutcome::Fallback(p) => board@.placeable(p),
            SearchOutcome::NoForcedWin => forall|plan: Seq<Position>| !plan_traps(board@, plan),
        },
{
    let ghost root_m = board@;
    let adj = build_adjacency();
    let h0 = escape_distance_with(board, &adj);
    let mut arena: Vec<SearchState> = Vec::new();
    arena.push(SearchState { board: board.duplicate(), heuristic: h0, depth: 0, link: Link::Root });
    let mut queue: Vec<usize> = Vec::new();
    queue.push(0);
    proof {
        assert(plan_of(arena@, 0) == Seq::<Position>::empty());
        assert forall|plan: Seq<Position>| #[trigger] plan_traps(root_m, plan) implies covered(
            arena@,
            queue@,
            plan,
        ) by {
            assert(Seq::<Position>::empty() =~= plan.take(0));
            assert(queue@[0] == 0);
            assert(is_prefix(plan_of(arena@, queue@[0] as int), plan));
        }
    }
    let mut iterations: usize = 0;
    loop
        invariant
            board@ == root_m,
            root_m.wf(),
            adjacency_table_wf(adj@),
            arena@.len() >= 1,
            forall|k: int| 0 <= k < arena@.len() ==> state_ok(root_m, arena@, k),
            forall|k: int| 0 <= k < queue@.len() ==> (#[trigger] queue@[k]) < arena@.len(),
            forall|plan: Seq<Position>| #[trigger] plan_traps(root_m, plan) ==> covered(
                arena@,
                queue@,
                plan,
            ),
            iterations <= ceiling,
        decreases ceiling - iterations,
    {
        if queue.len() == 0 {
            proof {
                assert forall|plan: Seq<Position>| !plan_traps(root_m, plan) by {
                    if plan_traps(root_m, plan) {
                        assert(covered(arena@, queue@, plan));
                    }
                }
            }
            return SearchOutcome::NoForcedWin;
        }
        if iterations >= ceiling {
            let r = fallback_placement(board);
            proof {
                if r is NoForcedWin {
                    assert forall|plan: Seq<Position>| !plan_traps(root_m, plan) by {
                        if plan_traps(root_m, plan) {
                            assert(root_m.placeable(plan[0]));
                        }
                    }
                }
            }
            return r;
        }
        iterations = iterations + 1;

        let ghost queue_before = queue@;
        let si = pop_best(&mut queue, &arena);
        let ghost bk = choose|bk: int|
            0 <= bk < queue_before.len() && queue_before[bk] == si && queue@ == queue_before.remove(
                bk,
            );
        let link = arena[si].link;
        let si_depth = arena[si].depth;
        let mut bsim = arena[si].board.duplicate();
        let ghost plan0 = plan_of(arena@, si as int);
        proof {
            assert(state_ok(root_m, arena@, si as int));
        }
        let mut expand = false;
        match link {
            Link::Root => {
                // The root is expanded as it stands: no simulated cat
                // move yet.
                expand = true;
                proof {
                    assert(plan0 == Seq::<Position>::empty());
                    assert(bsim@ == root_m);
                    assert forall|plan: Seq<Position>| #[trigger] plan_traps(root_m, plan)
                        implies covered(arena@, queue@, plan) || expansion_covers(
                        root_m,
                        plan0,
                        bsim@,
                        plan,
                    ) by {
                        if !covered(arena@, queue@, plan) {
                            lemma_uncovered_ran_through(arena@, queue_before, queue@, bk, plan);
                            lemma_pending_root(root_m, plan);
                        }
                    }
                }
            },
            Link::Child { .. } => {
                let ghost pre = bsim@;
                let mv = bsim.move_cat();
                match mv {
                    None => {
                        // The cat policy has no answer to this chain of
                        // placements: a forced win.  This test alone
                        // catches every win: a sealed cat is trapped
                        // (`lemma_sealed_cat_trapped`), so the escape
                        // distance can only hit its sentinel when the
                        // policy reports no move.
                        proof {
                            assert(plan0.len() >= 1);
                            lemma_sim_trapped(root_m, plan0, pre);
                            assert forall|k: int|
                                0 <= k < arena@.len() implies match (
                            #[trigger] arena@[k]).link {
                                Link::Root => true,
                                Link::Child { parent, placement } => 0 <= parent < k,
                            } by {
                                assert(state_ok(root_m, arena@, k));
                            }
                        }
                        let plan = reconstruct_plan(&arena, si);
                        return SearchOutcome::Win(plan);
                    },
                    Some(_) => {
                        if !bsim.cat_position().is_edge() {
                            expand = true;
                            proof {
                                let q = mv->Some_0;
                                assert(plan0.len() >= 1);
                                assert(!q.edge());
                                assert(sim_partial(root_m, plan0) == Some(pre) && cat_move_spec(
                                    pre,
                                ) == Some(q) && !q.edge() && bsim@ == pre.with_cat(q));
                                assert forall|plan: Seq<Position>| #[trigger] plan_traps(
                                    root_m,
                                    plan,
                                ) implies covered(arena@, queue@, plan) || expansion_covers(
                                    root_m,
                                    plan0,
                                    bsim@,
                                    plan,
                                ) by {
                                    if !covered(arena@, queue@, plan) {
                                        lemma_uncovered_ran_through(
                                            arena@,
                                            queue_before,
                                            queue@,
                                            bk,
                                            plan,
                                        );
                                        lemma_pending_child(root_m, plan0, pre, bsim@, plan);
                                    }
                                }
                            }
                        } else {
                            // The simulated cat escaped: prune this
                            // branch.  No trapping plan runs through
                            // it, since along a trapping plan the cat
                            // never reaches the boundary.
                            proof {
                                assert(plan0.len() >= 1);
                                assert forall|plan: Seq<Position>| #[trigger] plan_traps(
                                    root_m,
                                    plan,
                                ) implies covered(arena@, queue@, plan) by {
                                    if !covered(arena@, queue@, plan) {
                                        lemma_uncovered_ran_through(
                                            arena@,
                                            queue_before,
                                            queue@,
                                            bk,
                                            plan,
                                        );
                                        lemma_pending_response_off_edge(
                                            root_m,
                                            plan0,
                                            pre,
                                            plan,
                                        );
                                    }
                                }
                            }
                        }
                    },
                }
            },
        }
        if expand {
            let cat = bsim.cat_position();
            let mut i: usize = 0;
            proof {
                assert forall|plan: Seq<Position>| #[trigger] plan_traps(root_m, plan)
                    implies covered(arena@, queue@, plan) || (expansion_covers(
                    root_m,
                    plan0,
                    bsim@,
                    plan,
                ) && plan[plan0.len() as int].index() >= 0) by {
                    if !covered(arena@, queue@, plan) {
                        let pn = plan[plan0.len() as int];
                        assert(bsim@.placeable(pn));
                    }
                }
            }
            while i < CELL_COUNT
                invariant
                    board@ == root_m,
                    root_m.wf(),
                    adjacency_table_wf(adj@),
                    i <= CELL_COUNT,
                    arena@.len() >= 1,
                    (si as int) < arena@.len(),
                    plan_of(arena@, si as int) == plan0,
                    bsim@.wf(),
                    cat == bsim@.cat,
                    expansion_base(root_m, plan0, bsim@),
                    forall|k: int| 0 <= k < arena@.len() ==> state_ok(root_m, arena@, k),
                    forall|k: int| 0 <= k < queue@.len() ==> (#[trigger] queue@[k]) < arena@.len(),
                    forall|plan: Seq<Position>| #[trigger] plan_traps(root_m, plan) ==> covered(
                        arena@,
                        queue@,
                        plan,
                    ) || (expansion_covers(root_m, plan0, bsim@, plan) && plan[plan0.len() as int].index()
                        >= i),
                    iterations <= ceiling,
                decreases CELL_COUNT - i,
            {
                let p = position_at(i);
                if !bsim.is_obstructed(p) && !(p.r == cat.r && p.c == cat.c) {
                    let mut nb = bsim.duplicate();
                    let ok = nb.place_obstacle(p);
                    proof {
                        assert(ok);
                        lemma_expand_child(root_m, plan0, bsim@, p);
                    }
                    let h = escape_distance_with(&nb, &adj);
                    let child = SearchState {
                        board: nb,
                        heuristic: h,
                        depth: if si_depth < usize::MAX {
                            si_depth + 1
                        } else {
                            si_depth
                        },
                        link: Link::Child { parent: si, placement: p },
                    };
                    let ghost arena0 = arena@;
                    let ghost queue0 = queue@;
                    arena.push(child);
                    queue.push(arena.len() - 1);
                    proof {
                        assert forall|k: int|
                            0 <= k < arena@.len() implies state_ok(root_m, arena@, k) by {
                            if k < arena0.len() {
                                lemma_plan_of_push(arena0, child, k);
                                assert(state_ok(root_m, arena0, k));
                            } else {
                                lemma_plan_of_push(arena0, child, si as int);
                                assert(plan_of(arena@, k) == plan0.push(p));
                            }
                        }
                        lemma_plan_of_push(arena0, child, si as int);
                        assert forall|plan: Seq<Position>| #[trigger] plan_traps(root_m, plan)
                            implies covered(arena@, queue@, plan) || (expansion_covers(
                            root_m,
                            plan0,
                            bsim@,
                            plan,
                        ) && plan[plan0.len() as int].index() >= i + 1) by {
                            if covered(arena0, queue0, plan) {
                                lemma_covered_grow(arena0, child, queue0, (arena0.len()) as usize, plan);
                            } else {
                                let pn = plan[plan0.len() as int];
                                if pn.index() == i {
                                    crate::geometry::lemma_index_pos_at(pn);
                                    assert(pn == p);
                                    assert(plan_of(arena@, arena0.len() as int) == plan0.push(p));
                                    assert(plan0.push(pn) =~= plan.take(plan0.len() as int + 1));
                                    assert(is_prefix(
                                        plan_of(arena@, arena0.len() as int),
                                        plan,
                                    ));
                                    assert(queue@[queue@.len() - 1] == arena0.len());
                                    assert(covered(arena@, queue@, plan));
                                }
                            }
                        }
                    }
                } else {
                    proof {
                        assert(!bsim@.placeable(p));
                        assert forall|plan: Seq<Position>| #[trigger] plan_traps(root_m, plan)
                            implies covered(arena@, queue@, plan) || (expansion_covers(
                            root_m,
                            plan0,
                            bsim@,
                            plan,
                        ) && plan[plan0.len() as int].index() >= i + 1) by {
                            if !covered(arena@, queue@, plan) {
                                let pn = plan[plan0.len() as int];
                                if pn.index() == i {
                                    crate::geometry::lemma_index_pos_at(pn);
                                    assert(pn == p);
                                }
                            }
                        }
                    }
                }
                i = i + 1;
            }
            proof {
                assert forall|plan: Seq<Position>| #[trigger] plan_traps(root_m, plan)
                    implies covered(arena@, queue@, plan) by {
                    if !covered(arena@, queue@, plan) {
                        let pn = plan[plan0.len() as int];
                        assert(bsim@.placeable(pn));
                        crate::geometry::lemma_index_pos_at(pn);
                    }
                }
            }
        }
    }
}

/// A proposed move of the automated player.
pub enum ProposedMove {
    /// The next placement of a plan: either freshly searched or served
    /// from the cache after re-validation against the live board.
    Planned(Position),
    /// The search hit its ceiling; this placement is merely legal.
    Fallback(Position),
    /// Provenly, no trapping sequence exists from this board.
    NoForcedWin,
}

/// The automated player: runs the search and serves the found plan
/// placement by placement on later turns, until it is exhausted.
pub struct AutoPlayer {
    plan: Vec<Position>,
}

impl AutoPlayer {
    /// The placements still pending from the last found plan.
    pub closed spec fn pending(self) -> Seq<Position> {
        self.plan@
    }

    /// A fresh player with no cached plan.
    pub fn new() -> (a: AutoPlayer)
        ensures
            a.pending().len() == 0,
    {
        AutoPlayer { plan: Vec::new() }
    }

    /// Proposes the next placement for the given live board.
    ///
    /// A cached placement is re-validated against the live board
    /// before use; if the live board has diverged and the placement is
    /// no longer legal, the stale plan is discarded and a fresh search
    /// runs.  Every returned placement is legal on the given board, a
    /// freshly searched plan provably traps the cat, and the no-win
    /// answer proves that no trapping sequence exists.
    pub fn get_move(&mut self, board: &Board) -> (r: ProposedMove)
        requires
            board@.wf(),
            !board@.cat.edge(),
        ensures
            match r {
                ProposedMove::Planned(p) => board@.placeable(p),
                ProposedMove::Fallback(p) => board@.placeable(p),
                ProposedMove::NoForcedWin => final(self).pending().len() == 0 && (forall|
                    plan: Seq<Position>,
                | !plan_traps(board@, plan)),
            },
            old(self).pending().len() > 0 && board@.placeable(old(self).pending()[0])
                ==> r == ProposedMove::Planned(old(self).pending()[0]) && final(self).pending()
                == old(self).pending().drop_first(),
            (old(self).pending().len() == 0 || !board@.placeable(old(self).pending()[0]))
                ==> match r {
                    ProposedMove::Planned(p) => plan_traps(
                        board@,
                        seq![p] + final(self).pending(),
                    ),
                    _ => true,
                },
    {
        if self.plan.len() > 0 {
            let head = self.plan[0];
            let cat = board.cat_position();
            if head.is_valid() && !board.is_obstructed(head) && !(head.r == cat.r && head.c
                == cat.c) {
                let p = self.plan.remove(0);
                return ProposedMove::Planned(p);
            }
            // The live board diverged from the simulated one: the
            // cached tail is stale, so drop it and search afresh.
            self.plan.clear();
        }
        match search_plan(board) {
            SearchOutcome::Win(plan) => {
                self.plan = plan;
                let p = self.plan.remove(0);
                proof {
                    assert(seq![p] + self.plan@ =~= plan@);
                }
                ProposedMove::Planned(p)
            },
            SearchOutcome::Fallback(p) => ProposedMove::Fallback(p),
            SearchOutcome::NoForcedWin => ProposedMove::NoForcedWin,
        }
    }
}

} // verus!
