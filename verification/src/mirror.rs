//! The grid's symmetry: reflection across the middle row.
//!
//! Because the row count is odd and flipping rows preserves row
//! parity, reflecting every cell across row five is an automorphism of
//! the staggered hex grid: it preserves validity, edge membership and
//! adjacency.  (No column mirror has that property on this grid: the
//! ten columns of two half-cell-offset row shapes allow no
//! parity-consistent column remapping.)  The laws below show the
//! geometry behaves consistently under the symmetry that exists: a
//! reflected board has exactly the reflected escape paths, and the
//! escape-distance oracle returns the same answer on it.

use vstd::prelude::*;

use crate::board::BoardModel;
use crate::geometry::{
    adjacent, lemma_index_pos_at, lemma_pos_at_index, pos_at, Position, CELL_COUNT,
};
use crate::oracle::oracle_result;
use crate::paths::{escapable, is_escape_path, open_at};

verus! {

/// The cell reflected across the middle row.
pub open spec fn reflect(p: Position) -> Position {
    Position { r: (10 - p.r) as i8, c: p.c }
}

/// The board reflected across the middle row: wall for wall, and the
/// cat along.
pub open spec fn reflect_model(m: BoardModel) -> BoardModel {
    BoardModel {
        walls: Seq::new(CELL_COUNT as nat, |j: int| m.walls[reflect(pos_at(j)).index()]),
        cat: reflect(m.cat),
    }
}

/// A path reflected cell by cell.
pub open spec fn reflect_path(s: Seq<Position>) -> Seq<Position> {
    s.map_values(|p: Position| reflect(p))
}

/// Reflection is a self-inverse map of the valid cells.
pub proof fn lemma_reflect_involution(p: Position)
    requires
        p.valid(),
    ensures
        reflect(p).valid(),
        reflect(reflect(p)) == p,
        reflect(p).edge() == p.edge(),
{
}

/// Reflection preserves adjacency: flipped rows keep their parity, so
/// the staggered offsets swap the two diagonal pairs and nothing is
/// lost.
pub proof fn lemma_reflect_adjacent(p: Position, q: Position)
    requires
        adjacent(p, q),
    ensures
        adjacent(reflect(p), reflect(q)),
{
    let k = choose|k: int| 0 <= k < 6 && p.candidate(k) == q;
    let rp = reflect(p);
    assert((11 - p.r as int) % 2 == (p.r as int + 1) % 2);
    if k == 0 {
        assert(rp.candidate(0) == reflect(q));
    } else if k == 1 {
        assert(rp.candidate(5) == reflect(q));
    } else if k == 2 {
        assert(rp.candidate(4) == reflect(q));
    } else if k == 3 {
        assert(rp.candidate(3) == reflect(q));
    } else if k == 4 {
        assert(rp.candidate(2) == reflect(q));
    } else {
        assert(rp.candidate(1) == reflect(q));
    }
}

/// A reflected board is well formed, and its walls sit exactly on the
/// reflections of the original walls.
pub proof fn lemma_reflect_model_wf(m: BoardModel)
    requires
        m.wf(),
    ensures
        reflect_model(m).wf(),
        forall|p: Position|
            p.valid() ==> reflect_model(m).walls[#[trigger] reflect(p).index()] == m.walls[
                p.index()
            ],
{
    lemma_index_pos_at(m.cat);
    lemma_reflect_involution(m.cat);
    lemma_index_pos_at(reflect(m.cat));
    assert forall|p: Position|
        p.valid() implies reflect_model(m).walls[#[trigger] reflect(p).index()] == m.walls[
        p.index()
    ] by {
        lemma_reflect_involution(p);
        lemma_index_pos_at(reflect(p));
        assert(pos_at(reflect(p).index()) == reflect(p));
    }
    assert(!reflect_model(m).walls[reflect_model(m).cat.index()]);
}

/// Reflecting an escape path of a board gives an escape path, of the
/// same length, of the reflected board.
pub proof fn lemma_reflect_escape_path(m: BoardModel, s: Seq<Position>)
    requires
        m.wf(),
        is_escape_path(m, s),
    ensures
        is_escape_path(reflect_model(m), reflect_path(s)),
        reflect_path(s).len() == s.len(),
{
    let m2 = reflect_model(m);
    let t = reflect_path(s);
    lemma_reflect_model_wf(m);
    assert forall|i: int| 0 <= i < t.len() implies open_at(m2, #[trigger] t[i]) by {
        assert(open_at(m, s[i]));
        lemma_reflect_involution(s[i]);
    }
    assert forall|i: int| 0 <= i < t.len() - 1 implies adjacent(#[trigger] t[i], t[i + 1]) by {
        lemma_reflect_adjacent(s[i], s[i + 1]);
    }
    assert(t[0] == m2.cat);
    assert(t.last() == reflect(s.last()));
    assert(open_at(m, s.last()));
    lemma_reflect_involution(s.last());
}

/// Reflecting twice gives the board back.
pub proof fn lemma_reflect_model_involution(m: BoardModel)
    requires
        m.wf(),
    ensures
        reflect_model(reflect_model(m)) == m,
{
    lemma_index_pos_at(m.cat);
    lemma_reflect_involution(m.cat);
    assert forall|j: int|
        0 <= j < CELL_COUNT as int implies reflect_model(reflect_model(m)).walls[j] == m.walls[j] by {
        lemma_pos_at_index(j);
        lemma_reflect_involution(pos_at(j));
        lemma_index_pos_at(reflect(pos_at(j)));
        assert(pos_at(reflect(pos_at(j)).index()) == reflect(pos_at(j)));
    }
    assert(reflect_model(reflect_model(m)).walls =~= m.walls);
}

/// A board escapes exactly when its reflection does.
pub proof fn lemma_escapable_mirror(m: BoardModel)
    requires
        m.wf(),
    ensures
        escapable(reflect_model(m)) == escapable(m),
{
    lemma_reflect_model_wf(m);
    if escapable(m) {
        let s = choose|s: Seq<Position>| is_escape_path(m, s);
        lemma_reflect_escape_path(m, s);
    }
    if escapable(reflect_model(m)) {
        let s = choose|s: Seq<Position>| is_escape_path(reflect_model(m), s);
        lemma_reflect_escape_path(reflect_model(m), s);
        lemma_reflect_model_involution(m);
    }
}

/// Mirror law of the escape-distance oracle: on the board reflected
/// across the middle row, the oracle answers exactly as on the
/// original.  Every escape path reflects to an escape path of the same
/// length, so the shortest lengths, the sentinel and the zero case all
/// carry over.
pub proof fn lemma_escape_distance_mirror(m: BoardModel, d: usize)
    requires
        m.wf(),
        oracle_result(m, d),
    ensures
        oracle_result(reflect_model(m), d),
{
    let m2 = reflect_model(m);
    lemma_reflect_model_wf(m);
    lemma_reflect_model_involution(m);
    lemma_escapable_mirror(m);
    lemma_reflect_involution(m.cat);
    if d < CELL_COUNT {
        let s = choose|s: Seq<Position>| is_escape_path(m, s) && s.len() == d + 1;
        lemma_reflect_escape_path(m, s);
        assert(is_escape_path(m2, reflect_path(s)) && reflect_path(s).len() == d + 1);
        assert forall|t: Seq<Position>| is_escape_path(m2, t) implies t.len() >= d + 1 by {
            lemma_reflect_escape_path(m2, t);
            assert(is_escape_path(m, reflect_path(t)));
            assert(reflect_path(t).len() == t.len());
        }
    }
}

/// The linear index of the reflection of the cell with index `j`.
pub open spec fn ridx(j: int) -> int {
    reflect(pos_at(j)).index()
}

/// A per-cell table reflected across the middle row.
pub open spec fn reflect_bools(t: Seq<bool>) -> Seq<bool> {
    Seq::new(CELL_COUNT as nat, |j: int| t[ridx(j)])
}

/// A per-cell counter table reflected across the middle row.
pub open spec fn reflect_counts(t: Seq<u64>) -> Seq<u64> {
    Seq::new(CELL_COUNT as nat, |j: int| t[ridx(j)])
}

/// Index reflection is an involution within the board.
pub proof fn lemma_ridx(j: int)
    requires
        0 <= j < CELL_COUNT as int,
    ensures
        0 <= ridx(j) < CELL_COUNT as int,
        ridx(ridx(j)) == j,
        pos_at(ridx(j)) == reflect(pos_at(j)),
{
    lemma_pos_at_index(j);
    lemma_reflect_involution(pos_at(j));
    lemma_index_pos_at(reflect(pos_at(j)));
}

/// Looking a reflected table up at a reflected cell reads the original
/// entry.
pub proof fn lemma_reflect_bools_at(t: Seq<bool>, q: Position)
    requires
        t.len() == CELL_COUNT as int,
        q.valid(),
    ensures
        reflect_bools(t)[reflect(q).index()] == t[q.index()],
{
    lemma_index_pos_at(q);
    lemma_reflect_involution(q);
    lemma_index_pos_at(reflect(q));
    assert(pos_at(reflect(q).index()) == reflect(q));
}

/// Counter-table variant of the same fact.
pub proof fn lemma_reflect_counts_at(t: Seq<u64>, q: Position)
    requires
        t.len() == CELL_COUNT as int,
        q.valid(),
    ensures
        reflect_counts(t)[reflect(q).index()] == t[q.index()],
{
    lemma_index_pos_at(q);
    lemma_reflect_involution(q);
    lemma_index_pos_at(reflect(q));
    assert(pos_at(reflect(q).index()) == reflect(q));
}

/// Reflection commutes with each of the six candidate directions,
/// swapping the two diagonal pairs.
pub proof fn lemma_reflect_candidate(p: Position, k: int)
    requires
        p.valid(),
        0 <= k < 6,
    ensures
        reflect(p).candidate(if k == 0 || k == 3 {
            k
        } else {
            6 - k
        }) == reflect(p.candidate(k)),
        p.candidate(k).valid() == reflect(p.candidate(k)).valid(),
{
    assert((11 - p.r as int) % 2 == (p.r as int + 1) % 2);
}

/// Some listed neighbour of a cell is marked in a table exactly when
/// some listed neighbour of the reflected cell is marked in the
/// reflected table.
pub proof fn lemma_reflect_border(t: Seq<bool>, p: Position)
    requires
        t.len() == CELL_COUNT as int,
        p.valid(),
    ensures
        (exists|w: int|
            0 <= w < reflect(p).neighbor_list().len() && reflect_bools(t)[(#[trigger] reflect(
                p,
            ).neighbor_list()[w]).index()]) == (exists|w: int|
            0 <= w < p.neighbor_list().len() && t[(#[trigger] p.neighbor_list()[w]).index()]),
{
    lemma_reflect_involution(p);
    let rp = reflect(p);
    if exists|w: int|
        0 <= w < p.neighbor_list().len() && t[(#[trigger] p.neighbor_list()[w]).index()] {
        let w = choose|w: int|
            0 <= w < p.neighbor_list().len() && t[(#[trigger] p.neighbor_list()[w]).index()];
        let q = p.neighbor_list()[w];
        crate::geometry::lemma_neighbor_list_valid(p);
        assert(p.neighbor_list().contains(q));
        crate::geometry::lemma_neighbor_list_adjacent(p, q);
        lemma_reflect_adjacent(p, q);
        crate::geometry::lemma_neighbor_list_adjacent(rp, reflect(q));
        lemma_reflect_bools_at(t, q);
        let w2 = choose|w2: int|
            0 <= w2 < rp.neighbor_list().len() && rp.neighbor_list()[w2] == reflect(q);
        assert(reflect_bools(t)[(rp.neighbor_list()[w2]).index()]);
    }
    if exists|w: int|
        0 <= w < rp.neighbor_list().len() && reflect_bools(t)[(#[trigger] rp.neighbor_list()[
        w]).index()] {
        let w = choose|w: int|
            0 <= w < rp.neighbor_list().len() && reflect_bools(t)[(#[trigger] rp.neighbor_list()[
            w]).index()];
        let q2 = rp.neighbor_list()[w];
        crate::geometry::lemma_neighbor_list_valid(rp);
        assert(rp.neighbor_list().contains(q2));
        crate::geometry::lemma_neighbor_list_adjacent(rp, q2);
        lemma_reflect_adjacent(rp, q2);
        lemma_reflect_involution(q2);
        crate::geometry::lemma_neighbor_list_adjacent(p, reflect(q2));
        lemma_reflect_bools_at(t, reflect(q2));
        let w2 = choose|w2: int|
            0 <= w2 < p.neighbor_list().len() && p.neighbor_list()[w2] == reflect(q2);
        assert(t[(p.neighbor_list()[w2]).index()]);
    }
}

/// A nonnegative amount, capped at the counter range.
pub open spec fn clamp(x: int) -> u64 {
    if x > u64::MAX {
        u64::MAX
    } else if x < 0 {
        0u64
    } else {
        x as u64
    }
}

/// The inflow of a cell as an unbounded integer, in list order.
pub open spec fn int_inflow(counts: Seq<u64>, layer: Seq<bool>, nbs: Seq<Position>) -> int
    decreases nbs.len(),
{
    if nbs.len() == 0 {
        0
    } else {
        int_inflow(counts, layer, nbs.drop_last()) + (if layer[nbs.last().index()] {
            counts[nbs.last().index()] as int
        } else {
            0
        })
    }
}

/// The saturating fold equals the capped integer sum: saturating
/// addition of nonnegative amounts loses no ordering information.
pub proof fn lemma_wave_sum_clamp(counts: Seq<u64>, layer: Seq<bool>, nbs: Seq<Position>)
    ensures
        0 <= int_inflow(counts, layer, nbs),
        crate::policy::wave_sum(counts, layer, nbs) == clamp(int_inflow(counts, layer, nbs)),
    decreases nbs.len(),
{
    if nbs.len() > 0 {
        lemma_wave_sum_clamp(counts, layer, nbs.drop_last());
    }
}

/// The integer inflow of a concatenation splits.
pub proof fn lemma_int_inflow_concat(
    counts: Seq<u64>,
    layer: Seq<bool>,
    a: Seq<Position>,
    b: Seq<Position>,
)
    ensures
        int_inflow(counts, layer, a + b) == int_inflow(counts, layer, a) + int_inflow(
            counts,
            layer,
            b,
        ),
    decreases b.len(),
{
    if b.len() == 0 {
        assert(a + b =~= a);
    } else {
        assert((a + b).drop_last() =~= a + b.drop_last());
        assert((a + b).last() == b.last());
        lemma_int_inflow_concat(counts, layer, a, b.drop_last());
    }
}

/// The inflow contribution of one candidate direction.
pub open spec fn cand_contrib(counts: Seq<u64>, layer: Seq<bool>, q: Position) -> int {
    if q.valid() && layer[q.index()] {
        counts[q.index()] as int
    } else {
        0
    }
}

/// The integer inflow, indexed by candidate direction instead of by
/// list position.
pub open spec fn cand_inflow(counts: Seq<u64>, layer: Seq<bool>, p: Position, k: int) -> int
    decreases 6 - k,
{
    if k < 0 || k >= 6 {
        0
    } else {
        cand_contrib(counts, layer, p.candidate(k)) + cand_inflow(counts, layer, p, k + 1)
    }
}

/// The list-ordered inflow equals the candidate-indexed inflow:
/// omitted candidates are exactly the invalid ones, which contribute
/// nothing.
pub proof fn lemma_int_inflow_candidates(
    counts: Seq<u64>,
    layer: Seq<bool>,
    p: Position,
    k: int,
)
    requires
        p.valid(),
        0 <= k <= 6,
    ensures
        int_inflow(counts, layer, p.neighbor_list_from(k)) == cand_inflow(counts, layer, p, k),
    decreases 6 - k,
{
    if k < 6 {
        lemma_int_inflow_candidates(counts, layer, p, k + 1);
        if p.candidate(k).valid() {
            assert(p.neighbor_list_from(k) == seq![p.candidate(k)] + p.neighbor_list_from(k + 1));
            lemma_int_inflow_concat(
                counts,
                layer,
                seq![p.candidate(k)],
                p.neighbor_list_from(k + 1),
            );
            assert(seq![p.candidate(k)].drop_last() =~= Seq::<Position>::empty());
            assert(int_inflow(counts, layer, Seq::<Position>::empty()) == 0);
            assert(seq![p.candidate(k)].last() == p.candidate(k));
            assert(int_inflow(counts, layer, seq![p.candidate(k)]) == cand_contrib(
                counts,
                layer,
                p.candidate(k),
            ));
        }
    }
}

/// The candidate-indexed inflow is invariant under reflection.
pub proof fn lemma_cand_inflow_mirror(counts: Seq<u64>, layer: Seq<bool>, p: Position)
    requires
        counts.len() == CELL_COUNT as int,
        layer.len() == CELL_COUNT as int,
        p.valid(),
    ensures
        cand_inflow(reflect_counts(counts), reflect_bools(layer), reflect(p), 0) == cand_inflow(
            counts,
            layer,
            p,
            0,
        ),
{
    let rp = reflect(p);
    lemma_reflect_involution(p);
    assert forall|k: int| 0 <= k < 6 implies cand_contrib(
        reflect_counts(counts),
        reflect_bools(layer),
        reflect(#[trigger] p.candidate(k)),
    ) == cand_contrib(counts, layer, p.candidate(k)) by {
        let q = p.candidate(k);
        lemma_reflect_candidate(p, k);
        if q.valid() {
            lemma_reflect_bools_at(layer, q);
            lemma_reflect_counts_at(counts, q);
        }
    }
    assert forall|k: int| 0 <= k < 6 implies rp.candidate(if k == 0 || k == 3 {
        k
    } else {
        6 - k
    }) == reflect(#[trigger] p.candidate(k)) by {
        lemma_reflect_candidate(p, k);
    }
    assert(cand_inflow(reflect_counts(counts), reflect_bools(layer), rp, 0) == cand_inflow(
        counts,
        layer,
        p,
        0,
    )) by {
        reveal_with_fuel(cand_inflow, 8);
    }
}

/// The wave inflow of a cell is invariant under reflection.
pub proof fn lemma_wave_sum_mirror(counts: Seq<u64>, layer: Seq<bool>, p: Position)
    requires
        counts.len() == CELL_COUNT as int,
        layer.len() == CELL_COUNT as int,
        p.valid(),
    ensures
        crate::policy::wave_sum(
            reflect_counts(counts),
            reflect_bools(layer),
            reflect(p).neighbor_list(),
        ) == crate::policy::wave_sum(counts, layer, p.neighbor_list()),
{
    lemma_reflect_involution(p);
    lemma_wave_sum_clamp(counts, layer, p.neighbor_list());
    lemma_wave_sum_clamp(reflect_counts(counts), reflect_bools(layer), reflect(p).neighbor_list());
    lemma_int_inflow_candidates(counts, layer, p, 0);
    lemma_int_inflow_candidates(reflect_counts(counts), reflect_bools(layer), reflect(p), 0);
    lemma_cand_inflow_mirror(counts, layer, p);
}

/// One wave step on the reflected tables is the reflection of the wave
/// step on the originals.
pub proof fn lemma_step_mirror(
    m: BoardModel,
    counts: Seq<u64>,
    layer: Seq<bool>,
    processed: Seq<bool>,
)
    requires
        m.wf(),
        counts.len() == CELL_COUNT as int,
        layer.len() == CELL_COUNT as int,
        processed.len() == CELL_COUNT as int,
    ensures
        crate::policy::step_layer(reflect_model(m), reflect_bools(layer), reflect_bools(processed))
            == reflect_bools(crate::policy::step_layer(m, layer, processed)),
        crate::policy::step_processed(
            reflect_model(m),
            reflect_bools(layer),
            reflect_bools(processed),
        ) == reflect_bools(crate::policy::step_processed(m, layer, processed)),
        crate::policy::step_counts(
            reflect_model(m),
            reflect_counts(counts),
            reflect_bools(layer),
            reflect_bools(processed),
        ) == reflect_counts(crate::policy::step_counts(m, counts, layer, processed)),
{
    let m2 = reflect_model(m);
    assert forall|j: int| 0 <= j < CELL_COUNT as int implies crate::policy::joins_wave(
        m2,
        reflect_bools(layer),
        reflect_bools(processed),
        j,
    ) == crate::policy::joins_wave(m, layer, processed, ridx(j)) by {
        lemma_ridx(j);
        lemma_pos_at_index(j);
        lemma_reflect_border(layer, pos_at(ridx(j)));
        lemma_reflect_involution(pos_at(ridx(j)));
        assert(reflect(pos_at(ridx(j))) == pos_at(j));
        assert(m2.walls[j] == m.walls[ridx(j)]);
        assert(reflect_bools(processed)[j] == processed[ridx(j)]);
    }
    assert forall|j: int| 0 <= j < CELL_COUNT as int implies crate::policy::step_counts(
        m2,
        reflect_counts(counts),
        reflect_bools(layer),
        reflect_bools(processed),
    )[j] == reflect_counts(crate::policy::step_counts(m, counts, layer, processed))[j] by {
        lemma_ridx(j);
        lemma_pos_at_index(j);
        if crate::policy::joins_wave(m, layer, processed, ridx(j)) {
            lemma_wave_sum_mirror(counts, layer, pos_at(ridx(j)));
            lemma_reflect_involution(pos_at(ridx(j)));
            assert(reflect(pos_at(ridx(j))) == pos_at(j));
        }
    }
    assert(crate::policy::step_layer(m2, reflect_bools(layer), reflect_bools(processed))
        =~= reflect_bools(crate::policy::step_layer(m, layer, processed)));
    assert(crate::policy::step_processed(m2, reflect_bools(layer), reflect_bools(processed))
        =~= reflect_bools(crate::policy::step_processed(m, layer, processed)));
    assert(crate::policy::step_counts(
        m2,
        reflect_counts(counts),
        reflect_bools(layer),
        reflect_bools(processed),
    ) =~= reflect_counts(crate::policy::step_counts(m, counts, layer, processed)));
}

/// A neighbour the cat may step to at the decision round: adjacent,
/// outside the wave, with a recorded route count.
pub open spec fn eligible_step(
    cat: Position,
    counts: Seq<u64>,
    layer: Seq<bool>,
    q: Position,
) -> bool {
    adjacent(cat, q) && !layer[q.index()] && counts[q.index()] > 0
}

/// The decision is tie-free: either no neighbour is eligible, or one
/// eligible neighbour strictly out-counts every other.
pub open spec fn decision_tie_free(cat: Position, counts: Seq<u64>, layer: Seq<bool>) -> bool {
    ||| forall|q: Position| !eligible_step(cat, counts, layer, q)
    ||| exists|qs: Position|
        #[trigger] eligible_step(cat, counts, layer, qs) && forall|q: Position|
            eligible_step(cat, counts, layer, q) && q != qs ==> counts[q.index()] < counts[qs.index()]
}

/// An option with the position inside reflected.
pub open spec fn opt_reflect(o: Option<Position>) -> Option<Position> {
    match o {
        Some(p) => Some(reflect(p)),
        None => None,
    }
}

/// When one candidate strictly out-counts all other eligible list
/// entries, the decision scan picks exactly that candidate.
proof fn lemma_scan_picks_unique_max(
    counts: Seq<u64>,
    layer: Seq<bool>,
    nbs: Seq<Position>,
    best: Option<Position>,
    best_count: u64,
    qs: Position,
)
    requires
        forall|w: int| 0 <= w < nbs.len() ==> (#[trigger] nbs[w]).valid(),
        qs.valid(),
        !layer[qs.index()],
        counts[qs.index()] > 0,
        nbs.contains(qs) || best == Some(qs),
        best is None ==> best_count == 0,
        best matches Some(q) ==> counts[q.index()] == best_count && !layer[q.index()],
        best matches Some(q) ==> (q == qs || best_count < counts[qs.index()]),
        best == Some(qs) ==> best_count == counts[qs.index()],
        forall|w: int|
            0 <= w < nbs.len() && !layer[(#[trigger] nbs[w]).index()] && nbs[w] != qs
                ==> counts[nbs[w].index()] < counts[qs.index()],
    ensures
        crate::policy::scan_best(counts, layer, nbs, best, best_count) == Some(qs),
    decreases nbs.len(),
{
    if nbs.len() == 0 {
        assert(best == Some(qs));
    } else {
        let q = nbs[0];
        let rest = nbs.drop_first();
        assert(forall|w: int| 0 <= w < rest.len() ==> rest[w] == nbs[w + 1]);
        if nbs.contains(qs) && q != qs {
            let w = choose|w: int| 0 <= w < nbs.len() && nbs[w] == qs;
            assert(rest[w - 1] == qs);
            assert(rest.contains(qs));
        }
        if !layer[q.index()] && counts[q.index()] > best_count {
            if q == qs {
                lemma_scan_picks_unique_max(counts, layer, rest, Some(qs), counts[qs.index()], qs);
            } else {
                assert(counts[q.index()] < counts[qs.index()]);
                assert(rest.contains(qs));
                lemma_scan_picks_unique_max(counts, layer, rest, Some(q), counts[q.index()], qs);
            }
        } else {
            if q == qs {
                assert(best == Some(qs));
            }
            lemma_scan_picks_unique_max(counts, layer, rest, best, best_count, qs);
        }
    }
}

/// Under a tie-free decision, the choice on the reflected wave is the
/// reflection of the choice on the original wave.
proof fn lemma_decision_mirror(cat: Position, counts: Seq<u64>, layer: Seq<bool>)
    requires
        cat.valid(),
        counts.len() == CELL_COUNT as int,
        layer.len() == CELL_COUNT as int,
        decision_tie_free(cat, counts, layer),
    ensures
        crate::policy::wave_decision(reflect(cat), reflect_counts(counts), reflect_bools(layer))
            == opt_reflect(crate::policy::wave_decision(cat, counts, layer)),
{
    let rcat = reflect(cat);
    let counts2 = reflect_counts(counts);
    let layer2 = reflect_bools(layer);
    lemma_reflect_involution(cat);
    crate::geometry::lemma_neighbor_list_valid(cat);
    crate::geometry::lemma_neighbor_list_valid(rcat);
    // Entries of either neighbour list are eligible exactly when their
    // reflections are.
    assert forall|x: Position|
        x.valid() implies (eligible_step(rcat, counts2, layer2, x) == eligible_step(
        cat,
        counts,
        layer,
        reflect(x),
    )) by {
        lemma_reflect_involution(x);
        lemma_reflect_bools_at(layer, reflect(x));
        lemma_reflect_counts_at(counts, reflect(x));
        if adjacent(rcat, x) {
            lemma_reflect_adjacent(rcat, x);
        }
        if adjacent(cat, reflect(x)) {
            lemma_reflect_adjacent(cat, reflect(x));
        }
    }
    if exists|qs: Position|
        #[trigger] eligible_step(cat, counts, layer, qs) && forall|q: Position|
            eligible_step(cat, counts, layer, q) && q != qs ==> counts[q.index()] < counts[qs.index()] {
        let qs = choose|qs: Position|
            #[trigger] eligible_step(cat, counts, layer, qs) && forall|q: Position|
                eligible_step(cat, counts, layer, q) && q != qs ==> counts[q.index()] < counts[qs.index()];
        crate::geometry::lemma_neighbor_list_adjacent(cat, qs);
        assert forall|w: int|
            0 <= w < cat.neighbor_list().len() && !layer[(#[trigger] cat.neighbor_list()[
            w]).index()] && cat.neighbor_list()[w] != qs implies counts[cat.neighbor_list()[
        w].index()] < counts[qs.index()] by {
            let x = cat.neighbor_list()[w];
            assert(cat.neighbor_list().contains(x));
            crate::geometry::lemma_neighbor_list_adjacent(cat, x);
            if counts[x.index()] > 0 {
                assert(eligible_step(cat, counts, layer, x));
            }
        }
        lemma_scan_picks_unique_max(counts, layer, cat.neighbor_list(), None, 0, qs);
        let qs2 = reflect(qs);
        lemma_reflect_involution(qs);
        lemma_reflect_adjacent(cat, qs);
        lemma_reflect_bools_at(layer, qs);
        lemma_reflect_counts_at(counts, qs);
        crate::geometry::lemma_neighbor_list_adjacent(rcat, qs2);
        assert forall|w: int|
            0 <= w < rcat.neighbor_list().len() && !layer2[(#[trigger] rcat.neighbor_list()[
            w]).index()] && rcat.neighbor_list()[w] != qs2 implies counts2[rcat.neighbor_list()[
        w].index()] < counts2[qs2.index()] by {
            let x = rcat.neighbor_list()[w];
            assert(rcat.neighbor_list().contains(x));
            crate::geometry::lemma_neighbor_list_adjacent(rcat, x);
            lemma_reflect_involution(x);
            lemma_reflect_bools_at(layer, reflect(x));
            lemma_reflect_counts_at(counts, reflect(x));
            if counts2[x.index()] > 0 {
                assert(eligible_step(rcat, counts2, layer2, x));
                assert(eligible_step(cat, counts, layer, reflect(x)));
                if reflect(x) == qs {
                    assert(x == qs2);
                }
            }
        }
        lemma_scan_picks_unique_max(counts2, layer2, rcat.neighbor_list(), None, 0, qs2);
    } else {
        // No eligible neighbour on either board: both scans yield no
        // move.
        crate::policy::lemma_scan_best_public(counts, layer, cat.neighbor_list());
        crate::policy::lemma_scan_best_public(counts2, layer2, rcat.neighbor_list());
        match crate::policy::wave_decision(cat, counts, layer) {
            Some(p) => {
                assert(cat.neighbor_list().contains(p));
                crate::geometry::lemma_neighbor_list_adjacent(cat, p);
                assert(eligible_step(cat, counts, layer, p));
                assert(false);
            },
            None => {},
        }
        match crate::policy::wave_decision(rcat, counts2, layer2) {
            Some(p) => {
                assert(rcat.neighbor_list().contains(p));
                crate::geometry::lemma_neighbor_list_adjacent(rcat, p);
                assert(eligible_step(rcat, counts2, layer2, p));
                assert(eligible_step(cat, counts, layer, reflect(p)));
                assert(false);
            },
            None => {},
        }
    }
}

/// The labelling run is tie-free: if its waves reach the cat, the
/// decision that falls there has a unique best neighbour.
pub open spec fn rounds_tie_free(
    m: BoardModel,
    counts: Seq<u64>,
    layer: Seq<bool>,
    processed: Seq<bool>,
    fuel: nat,
) -> bool
    decreases fuel,
{
    if !crate::policy::wave_nonempty(layer) {
        true
    } else if layer[m.cat.index()] {
        decision_tie_free(m.cat, counts, layer)
    } else if fuel == 0 {
        true
    } else {
        rounds_tie_free(
            m,
            crate::policy::step_counts(m, counts, layer, processed),
            crate::policy::step_layer(m, layer, processed),
            crate::policy::step_processed(m, layer, processed),
            (fuel - 1) as nat,
        )
    }
}

/// The whole cat-policy run on the board is tie-free.
pub open spec fn policy_tie_free(m: BoardModel) -> bool {
    rounds_tie_free(
        m,
        crate::policy::seed_counts(m),
        crate::policy::seed_layer(m),
        crate::policy::seed_layer(m),
        120,
    )
}

/// A wave is nonempty exactly when its reflection is.
proof fn lemma_wave_nonempty_mirror(layer: Seq<bool>)
    requires
        layer.len() == CELL_COUNT as int,
    ensures
        crate::policy::wave_nonempty(reflect_bools(layer)) == crate::policy::wave_nonempty(layer),
{
    let layer2 = reflect_bools(layer);
    if crate::policy::wave_nonempty(layer) {
        let j = choose|j: int| 0 <= j < CELL_COUNT as int && layer[j];
        lemma_ridx(j);
        assert(layer2[ridx(j)] == layer[ridx(ridx(j))]);
        assert(layer2[ridx(j)]);
    }
    if crate::policy::wave_nonempty(layer2) {
        let j = choose|j: int| 0 <= j < CELL_COUNT as int && layer2[j];
        lemma_ridx(j);
        assert(layer[ridx(j)]);
    }
}

/// One non-final round of the reflected run unfolds to the reflected
/// next state.
#[verifier::rlimit(100)]
proof fn lemma_rounds_mirror_step(
    m: BoardModel,
    counts: Seq<u64>,
    layer: Seq<bool>,
    processed: Seq<bool>,
    fuel: nat,
)
    requires
        m.wf(),
        counts.len() == CELL_COUNT as int,
        layer.len() == CELL_COUNT as int,
        processed.len() == CELL_COUNT as int,
        crate::policy::wave_nonempty(layer),
        !layer[m.cat.index()],
        fuel > 0,
    ensures
        crate::policy::policy_rounds(
            reflect_model(m),
            reflect_counts(counts),
            reflect_bools(layer),
            reflect_bools(processed),
            fuel,
        ) == crate::policy::policy_rounds(
            reflect_model(m),
            reflect_counts(crate::policy::step_counts(m, counts, layer, processed)),
            reflect_bools(crate::policy::step_layer(m, layer, processed)),
            reflect_bools(crate::policy::step_processed(m, layer, processed)),
            (fuel - 1) as nat,
        ),
{
    let m2 = reflect_model(m);
    lemma_reflect_model_wf(m);
    lemma_index_pos_at(m.cat);
    lemma_wave_nonempty_mirror(layer);
    lemma_reflect_bools_at(layer, m.cat);
    assert(!reflect_bools(layer)[m2.cat.index()]);
    lemma_step_mirror(m, counts, layer, processed);
}

/// A run whose wave has died out yields no move, on a board and on its
/// reflection alike.
proof fn lemma_rounds_mirror_empty(
    m: BoardModel,
    counts: Seq<u64>,
    layer: Seq<bool>,
    processed: Seq<bool>,
    fuel: nat,
)
    requires
        m.wf(),
        layer.len() == CELL_COUNT as int,
        !crate::policy::wave_nonempty(layer),
    ensures
        crate::policy::policy_rounds(m, counts, layer, processed, fuel) is None,
        crate::policy::policy_rounds(
            reflect_model(m),
            reflect_counts(counts),
            reflect_bools(layer),
            reflect_bools(processed),
            fuel,
        ) is None,
{
    lemma_wave_nonempty_mirror(layer);
}

/// At the decision round, the reflected run decides the reflection of
/// the original decision.
#[verifier::rlimit(100)]
proof fn lemma_rounds_mirror_decide(
    m: BoardModel,
    counts: Seq<u64>,
    layer: Seq<bool>,
    processed: Seq<bool>,
    fuel: nat,
)
    requires
        m.wf(),
        counts.len() == CELL_COUNT as int,
        layer.len() == CELL_COUNT as int,
        crate::policy::wave_nonempty(layer),
        layer[m.cat.index()],
        decision_tie_free(m.cat, counts, layer),
    ensures
        crate::policy::policy_rounds(
            reflect_model(m),
            reflect_counts(counts),
            reflect_bools(layer),
            reflect_bools(processed),
            fuel,
        ) == opt_reflect(crate::policy::policy_rounds(m, counts, layer, processed, fuel)),
{
    let m2 = reflect_model(m);
    lemma_reflect_model_wf(m);
    lemma_index_pos_at(m.cat);
    lemma_wave_nonempty_mirror(layer);
    lemma_reflect_bools_at(layer, m.cat);
    assert(reflect_bools(layer)[m2.cat.index()]);
    lemma_decision_mirror(m.cat, counts, layer);
}

/// A run that exhausts its fuel away from the cat yields no move, on a
/// board and on its reflection alike.
proof fn lemma_rounds_mirror_spent(
    m: BoardModel,
    counts: Seq<u64>,
    layer: Seq<bool>,
    processed: Seq<bool>,
)
    requires
        m.wf(),
        layer.len() == CELL_COUNT as int,
        crate::policy::wave_nonempty(layer),
        !layer[m.cat.index()],
    ensures
        crate::policy::policy_rounds(m, counts, layer, processed, 0) is None,
        crate::policy::policy_rounds(
            reflect_model(m),
            reflect_counts(counts),
            reflect_bools(layer),
            reflect_bools(processed),
            0,
        ) is None,
{
    let m2 = reflect_model(m);
    lemma_reflect_model_wf(m);
    lemma_index_pos_at(m.cat);
    lemma_wave_nonempty_mirror(layer);
    lemma_reflect_bools_at(layer, m.cat);
    assert(!reflect_bools(layer)[m2.cat.index()]);
}

/// The labelling run commutes with reflection, round by round.
#[verifier::rlimit(100)]
proof fn lemma_rounds_mirror(
    m: BoardModel,
    counts: Seq<u64>,
    layer: Seq<bool>,
    processed: Seq<bool>,
    fuel: nat,
)
    requires
        m.wf(),
        counts.len() == CELL_COUNT as int,
        layer.len() == CELL_COUNT as int,
        processed.len() == CELL_COUNT as int,
        rounds_tie_free(m, counts, layer, processed, fuel),
    ensures
        crate::policy::policy_rounds(
            reflect_model(m),
            reflect_counts(counts),
            reflect_bools(layer),
            reflect_bools(processed),
            fuel,
        ) == opt_reflect(crate::policy::policy_rounds(m, counts, layer, processed, fuel)),
    decreases fuel,
{
    lemma_index_pos_at(m.cat);
    if !crate::policy::wave_nonempty(layer) {
        lemma_rounds_mirror_empty(m, counts, layer, processed, fuel);
    } else if layer[m.cat.index()] {
        lemma_rounds_mirror_decide(m, counts, layer, processed, fuel);
    } else if fuel == 0 {
        lemma_rounds_mirror_spent(m, counts, layer, processed);
    } else {
        let sc = crate::policy::step_counts(m, counts, layer, processed);
        let sl = crate::policy::step_layer(m, layer, processed);
        let sp = crate::policy::step_processed(m, layer, processed);
        lemma_rounds_mirror_step(m, counts, layer, processed, fuel);
        lemma_rounds_mirror(m, sc, sl, sp, (fuel - 1) as nat);
        assert(crate::policy::policy_rounds(m, counts, layer, processed, fuel)
            == crate::policy::policy_rounds(m, sc, sl, sp, (fuel - 1) as nat));
    }
}

/// The seed wave of the reflected board is the reflected seed wave.
#[verifier::rlimit(100)]
proof fn lemma_seeds_mirror(m: BoardModel)
    requires
        m.wf(),
    ensures
        crate::policy::seed_layer(reflect_model(m)) == reflect_bools(crate::policy::seed_layer(m)),
        crate::policy::seed_counts(reflect_model(m)) == reflect_counts(
            crate::policy::seed_counts(m),
        ),
{
    let m2 = reflect_model(m);
    assert forall|j: int| 0 <= j < CELL_COUNT as int implies crate::policy::seed_layer(m2)[j]
        == reflect_bools(crate::policy::seed_layer(m))[j] && crate::policy::seed_counts(m2)[j]
        == reflect_counts(crate::policy::seed_counts(m))[j] by {
        lemma_ridx(j);
        lemma_pos_at_index(j);
        lemma_reflect_involution(pos_at(j));
    }
    assert(crate::policy::seed_layer(m2) =~= reflect_bools(crate::policy::seed_layer(m)));
    assert(crate::policy::seed_counts(m2) =~= reflect_counts(crate::policy::seed_counts(m)));
}

/// Mirror law of the cat policy, under the grid's row reflection: when
/// the decision is tie-free, the cat's move on the reflected board is
/// the reflection of its move on the original, and a trapped cat stays
/// trapped.  Tied decisions are excluded because the policy breaks
/// ties by its fixed neighbour enumeration order, which the reflection
/// reverses between the two diagonal pairs.
pub proof fn lemma_cat_policy_mirror(m: BoardModel)
    requires
        m.wf(),
        policy_tie_free(m),
    ensures
        crate::policy::cat_move_spec(reflect_model(m)) == opt_reflect(
            crate::policy::cat_move_spec(m),
        ),
{
    lemma_reflect_model_wf(m);
    lemma_seeds_mirror(m);
    lemma_rounds_mirror(
        m,
        crate::policy::seed_counts(m),
        crate::policy::seed_layer(m),
        crate::policy::seed_layer(m),
        120,
    );
}

} // verus!
