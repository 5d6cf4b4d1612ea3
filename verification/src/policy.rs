//! The cat's per-turn decision procedure: a layered, multi-source
//! breadth-first labelling run inward from every open edge cell.
//!
//! Every open edge cell seeds the first wave with a route count of
//! one.  Each later wave assigns every newly encountered open cell the
//! accumulated route count of its neighbours in the previous wave.
//! When the wave reaches the cat, the cat steps to the neighbouring
//! cell with the strictly largest accumulated route count outside the
//! wave — the cell with the richest connectivity to the open boundary.
//! If the waves die out before reaching the cat, or no neighbour
//! qualifies, the cat is trapped and there is no move.
//!
//! The spec functions below define the outcome exactly, tie-break
//! order included; `Board::move_cat` is proved to return precisely
//! that outcome.

use vstd::prelude::*;
use vstd::pervasive::VecAdditionalExecFns;

use crate::board::{Board, BoardModel};
use crate::geometry::{
    adjacent, lemma_neighbor_list_adjacent, lemma_neighbor_list_valid, pos_at, position_at,
    Position, CELL_COUNT,
};
use crate::oracle::{adjacency_table_wf, any_neighbor_marked, build_adjacency};
use crate::tables::{bool_table, count_true, lemma_count_true_grows, zero_table};

verus! {

/// Route counts are accumulated with saturating addition, so a board
/// dense with routes can never overflow a counter.
pub open spec fn sat_add(a: u64, b: u64) -> u64 {
    if a + b > u64::MAX {
        u64::MAX
    } else {
        (a + b) as u64
    }
}

/// The first wave: every open edge cell, each with one route.
pub open spec fn seed_layer(m: BoardModel) -> Seq<bool> {
    Seq::new(CELL_COUNT as nat, |j: int| pos_at(j).edge() && !m.walls[j])
}

/// Initial route counts: one on every open edge cell, zero elsewhere.
pub open spec fn seed_counts(m: BoardModel) -> Seq<u64> {
    Seq::new(
        CELL_COUNT as nat,
        |j: int|
            if pos_at(j).edge() && !m.walls[j] {
                1u64
            } else {
                0u64
            },
    )
}

/// Whether any cell is in the wave.
pub open spec fn wave_nonempty(layer: Seq<bool>) -> bool {
    exists|j: int| 0 <= j < CELL_COUNT as int && layer[j]
}

/// Whether cell `j` joins the next wave: open, not yet labelled, and
/// bordering the current wave.
pub open spec fn joins_wave(m: BoardModel, layer: Seq<bool>, processed: Seq<bool>, j: int) -> bool {
    &&& 0 <= j < CELL_COUNT as int
    &&& !m.walls[j]
    &&& !processed[j]
    &&& exists|w: int|
        0 <= w < pos_at(j).neighbor_list().len() && layer[(#[trigger] pos_at(
            j,
        ).neighbor_list()[w]).index()]
}

/// The route count flowing into a cell from its wave neighbours, in
/// canonical neighbour order.
pub open spec fn wave_sum(counts: Seq<u64>, layer: Seq<bool>, nbs: Seq<Position>) -> u64
    decreases nbs.len(),
{
    if nbs.len() == 0 {
        0u64
    } else {
        let prefix = wave_sum(counts, layer, nbs.drop_last());
        let q = nbs.last();
        if layer[q.index()] {
            sat_add(prefix, counts[q.index()])
        } else {
            prefix
        }
    }
}

/// The route counts after one expansion step.
pub open spec fn step_counts(
    m: BoardModel,
    counts: Seq<u64>,
    layer: Seq<bool>,
    processed: Seq<bool>,
) -> Seq<u64> {
    Seq::new(
        CELL_COUNT as nat,
        |j: int|
            if joins_wave(m, layer, processed, j) {
                wave_sum(counts, layer, pos_at(j).neighbor_list())
            } else {
                counts[j]
            },
    )
}

/// The wave after one expansion step.
pub open spec fn step_layer(m: BoardModel, layer: Seq<bool>, processed: Seq<bool>) -> Seq<bool> {
    Seq::new(CELL_COUNT as nat, |j: int| joins_wave(m, layer, processed, j))
}

/// The labelled cells after one expansion step.
pub open spec fn step_processed(m: BoardModel, layer: Seq<bool>, processed: Seq<bool>) -> Seq<
    bool,
> {
    Seq::new(
        CELL_COUNT as nat,
        |j: int| processed[j] || joins_wave(m, layer, processed, j),
    )
}

/// The cat's choice once the wave reaches it: scanning its neighbours
/// in canonical order, pick the first one outside the wave whose route
/// count strictly exceeds every earlier candidate's; cells without a
/// recorded count (count zero) can never be chosen.
pub open spec fn scan_best(
    counts: Seq<u64>,
    layer: Seq<bool>,
    nbs: Seq<Position>,
    best: Option<Position>,
    best_count: u64,
) -> Option<Position>
    decreases nbs.len(),
{
    if nbs.len() == 0 {
        best
    } else {
        let q = nbs[0];
        if !layer[q.index()] && counts[q.index()] > best_count {
            scan_best(counts, layer, nbs.drop_first(), Some(q), counts[q.index()])
        } else {
            scan_best(counts, layer, nbs.drop_first(), best, best_count)
        }
    }
}

/// The decision at the round where the wave holds the cat's cell.
pub open spec fn wave_decision(cat: Position, counts: Seq<u64>, layer: Seq<bool>) -> Option<
    Position,
> {
    scan_best(counts, layer, cat.neighbor_list(), None, 0)
}

/// The outcome of the labelling run from a given wave state.  Each
/// round either exhausts the wave (the cat is trapped), reaches the
/// cat (the decision falls), or expands the wave inward by one layer.
/// The fuel only bounds the recursion; the run always ends before the
/// fuel does, since every round labels at least one new cell.
pub open spec fn policy_rounds(
    m: BoardModel,
    counts: Seq<u64>,
    layer: Seq<bool>,
    processed: Seq<bool>,
    fuel: nat,
) -> Option<Position>
    decreases fuel,
{
    if !wave_nonempty(layer) {
        None
    } else if layer[m.cat.index()] {
        wave_decision(m.cat, counts, layer)
    } else if fuel == 0 {
        None
    } else {
        policy_rounds(
            m,
            step_counts(m, counts, layer, processed),
            step_layer(m, layer, processed),
            step_processed(m, layer, processed),
            (fuel - 1) as nat,
        )
    }
}

/// The cat's move on a board, or no move when it is trapped.
pub open spec fn cat_move_spec(m: BoardModel) -> Option<Position> {
    policy_rounds(m, seed_counts(m), seed_layer(m), seed_layer(m), 120)
}

/// What the decision scan returns: a valid cell outside the wave with
/// a positive route count, drawn from the scanned list (or carried in
/// as the running best).
proof fn lemma_scan_best_props(
    counts: Seq<u64>,
    layer: Seq<bool>,
    nbs: Seq<Position>,
    best: Option<Position>,
    best_count: u64,
)
    requires
        forall|w: int| 0 <= w < nbs.len() ==> (#[trigger] nbs[w]).valid(),
        best is None ==> best_count == 0,
        best matches Some(q) ==> q.valid() && counts[q.index()] == best_count && best_count > 0
            && !layer[q.index()],
    ensures
        match scan_best(counts, layer, nbs, best, best_count) {
            Some(p) => p.valid() && counts[p.index()] > 0 && !layer[p.index()] && (nbs.contains(p)
                || best == Some(p)),
            None => best is None,
        },
    decreases nbs.len(),
{
    if nbs.len() > 0 {
        let q = nbs[0];
        let rest = nbs.drop_first();
        assert(forall|w: int| 0 <= w < rest.len() ==> rest[w] == nbs[w + 1]);
        if !layer[q.index()] && counts[q.index()] > best_count {
            lemma_scan_best_props(counts, layer, rest, Some(q), counts[q.index()]);
        } else {
            lemma_scan_best_props(counts, layer, rest, best, best_count);
        }
        match scan_best(counts, layer, nbs, best, best_count) {
            Some(p) => {
                if rest.contains(p) {
                    let w = choose|w: int| 0 <= w < rest.len() && rest[w] == p;
                    assert(nbs[w + 1] == p);
                } else if best != Some(p) && !(!layer[q.index()] && counts[q.index()]
                    > best_count) {
                    assert(false);
                } else if p == q {
                    assert(nbs[0] == p);
                }
            },
            None => {},
        }
    }
}

/// What a full decision scan returns: either no move, or a valid
/// listed cell outside the wave with a positive route count.
pub proof fn lemma_scan_best_public(counts: Seq<u64>, layer: Seq<bool>, nbs: Seq<Position>)
    requires
        forall|w: int| 0 <= w < nbs.len() ==> (#[trigger] nbs[w]).valid(),
    ensures
        match scan_best(counts, layer, nbs, None, 0) {
            Some(p) => p.valid() && counts[p.index()] > 0 && !layer[p.index()] && nbs.contains(p),
            None => true,
        },
{
    lemma_scan_best_props(counts, layer, nbs, None, 0);
}

/// Saturating addition, as executable code.
fn sat_add_exec(a: u64, b: u64) -> (s: u64)
    ensures
        s == sat_add(a, b),
{
    if a > u64::MAX - b {
        u64::MAX
    } else {
        a + b
    }
}

/// The route count flowing into a cell from the wave.
fn wave_sum_exec(counts: &Vec<u64>, layer: &Vec<bool>, nbs: &Vec<Position>) -> (s: u64)
    requires
        counts@.len() == CELL_COUNT as int,
        layer@.len() == CELL_COUNT as int,
        forall|w: int| 0 <= w < nbs@.len() ==> (#[trigger] nbs@[w]).valid(),
    ensures
        s == wave_sum(counts@, layer@, nbs@),
{
    let mut s: u64 = 0;
    let mut w: usize = 0;
    while w < nbs.len()
        invariant
            counts@.len() == CELL_COUNT as int,
            layer@.len() == CELL_COUNT as int,
            forall|v: int| 0 <= v < nbs@.len() ==> (#[trigger] nbs@[v]).valid(),
            w <= nbs@.len(),
            s == wave_sum(counts@, layer@, nbs@.take(w as int)),
        decreases nbs@.len() - w,
    {
        let q = nbs[w];
        let qi = q.idx();
        proof {
            assert(nbs@.take(w as int + 1).drop_last() =~= nbs@.take(w as int));
            assert(nbs@.take(w as int + 1).last() == nbs@[w as int]);
        }
        if layer[qi] {
            s = sat_add_exec(s, counts[qi]);
        }
        w = w + 1;
    }
    proof {
        assert(nbs@.take(nbs@.len() as int) =~= nbs@);
    }
    s
}

/// The decision scan over the cat's neighbours, in canonical order.
fn pick_step(counts: &Vec<u64>, layer: &Vec<bool>, cat: Position) -> (r: Option<Position>)
    requires
        counts@.len() == CELL_COUNT as int,
        layer@.len() == CELL_COUNT as int,
        cat.valid(),
    ensures
        r == wave_decision(cat, counts@, layer@),
{
    let nbs = cat.neighbors();
    proof {
        lemma_neighbor_list_valid(cat);
    }
    let mut best: Option<Position> = None;
    let mut best_count: u64 = 0;
    let mut w: usize = 0;
    proof {
        assert(nbs@.skip(0) =~= nbs@);
    }
    while w < nbs.len()
        invariant
            counts@.len() == CELL_COUNT as int,
            layer@.len() == CELL_COUNT as int,
            nbs@ == cat.neighbor_list(),
            forall|v: int| 0 <= v < nbs@.len() ==> (#[trigger] nbs@[v]).valid(),
            w <= nbs@.len(),
            scan_best(counts@, layer@, cat.neighbor_list(), None, 0) == scan_best(
                counts@,
                layer@,
                nbs@.skip(w as int),
                best,
                best_count,
            ),
        decreases nbs@.len() - w,
    {
        let q = nbs[w];
        let qi = q.idx();
        proof {
            assert(nbs@.skip(w as int).drop_first() =~= nbs@.skip(w as int + 1));
            assert(nbs@.skip(w as int)[0] == nbs@[w as int]);
        }
        if !layer[qi] && counts[qi] > best_count {
            best = Some(q);
            best_count = counts[qi];
        }
        w = w + 1;
    }
    proof {
        assert(nbs@.skip(nbs@.len() as int) =~= Seq::<Position>::empty());
    }
    best
}

/// One expansion step of the wave, as executable tables.
fn expand_wave(
    b: &Board,
    adj: &Vec<Vec<Position>>,
    counts: &Vec<u64>,
    layer: &Vec<bool>,
    processed: &Vec<bool>,
) -> (out: (Vec<u64>, Vec<bool>, Vec<bool>, bool))
    requires
        b@.wf(),
        adjacency_table_wf(adj@),
        counts@.len() == CELL_COUNT as int,
        layer@.len() == CELL_COUNT as int,
        processed@.len() == CELL_COUNT as int,
    ensures
        out.0@ == step_counts(b@, counts@, layer@, processed@),
        out.1@ == step_layer(b@, layer@, processed@),
        out.2@ == step_processed(b@, layer@, processed@),
        out.3 == wave_nonempty(step_layer(b@, layer@, processed@)),
{
    let ghost m = b@;
    let mut nc: Vec<u64> = Vec::new();
    let mut nl: Vec<bool> = Vec::new();
    let mut np: Vec<bool> = Vec::new();
    let mut any = false;
    let mut j: usize = 0;
    while j < CELL_COUNT
        invariant
            b@ == m,
            m.wf(),
            adjacency_table_wf(adj@),
            counts@.len() == CELL_COUNT as int,
            layer@.len() == CELL_COUNT as int,
            processed@.len() == CELL_COUNT as int,
            j <= CELL_COUNT,
            nc@.len() == j,
            nl@.len() == j,
            np@.len() == j,
            forall|i: int| 0 <= i < j ==> nc@[i] == step_counts(m, counts@, layer@, processed@)[i],
            forall|i: int| 0 <= i < j ==> nl@[i] == joins_wave(m, layer@, processed@, i),
            forall|i: int|
                0 <= i < j ==> np@[i] == (processed@[i] || joins_wave(m, layer@, processed@, i)),
            any == exists|i: int| 0 <= i < j && joins_wave(m, layer@, processed@, i),
        decreases CELL_COUNT - j,
    {
        let p = position_at(j);
        let mut joins = false;
        if !processed[j] && !b.is_obstructed(p) {
            proof {
                lemma_neighbor_list_valid(p);
            }
            joins = any_neighbor_marked(&adj[j], layer);
        }
        proof {
            assert(joins == joins_wave(m, layer@, processed@, j as int));
        }
        if joins {
            proof {
                lemma_neighbor_list_valid(pos_at(j as int));
            }
            let s = wave_sum_exec(counts, layer, &adj[j]);
            nc.push(s);
            nl.push(true);
            np.push(true);
            any = true;
        } else {
            nc.push(counts[j]);
            nl.push(false);
            np.push(processed[j]);
        }
        j = j + 1;
    }
    proof {
        assert(nc@ =~= step_counts(m, counts@, layer@, processed@));
        assert(nl@ =~= step_layer(m, layer@, processed@));
        assert(np@ =~= step_processed(m, layer@, processed@));
        if any {
            let wit = choose|i: int| 0 <= i < CELL_COUNT as int && joins_wave(
                m,
                layer@,
                processed@,
                i,
            );
            assert(step_layer(m, layer@, processed@)[wit]);
        }
        if wave_nonempty(step_layer(m, layer@, processed@)) {
            let wit = choose|i: int|
                0 <= i < CELL_COUNT as int && step_layer(m, layer@, processed@)[i];
            assert(joins_wave(m, layer@, processed@, wit));
        }
    }
    (nc, nl, np, any)
}

/// Wall cells never carry a route count.
spec fn walls_uncounted(m: BoardModel, counts: Seq<u64>) -> bool {
    forall|j: int| 0 <= j < CELL_COUNT as int && m.walls[j] ==> counts[j] == 0
}

/// The decision of the labelling run, computed without touching the
/// board.
fn cat_move_decision(b: &Board) -> (r: Option<Position>)
    requires
        b@.wf(),
    ensures
        r == cat_move_spec(b@),
        r matches Some(p) ==> p.valid() && !b@.walls[p.index()] && b@.cat.neighbor_list().contains(
            p,
        ) && adjacent(b@.cat, p),
{
    let ghost m = b@;
    let adj = build_adjacency();
    let cat = b.cat_position();
    let ci = cat.idx();

    // Seed the first wave from the open edge cells.
    let mut counts = zero_table(CELL_COUNT);
    let mut layer = bool_table(CELL_COUNT, false);
    let mut processed = bool_table(CELL_COUNT, false);
    let mut has_layer = false;
    let mut j: usize = 0;
    while j < CELL_COUNT
        invariant
            b@ == m,
            m.wf(),
            j <= CELL_COUNT,
            counts@.len() == CELL_COUNT as int,
            layer@.len() == CELL_COUNT as int,
            processed@.len() == CELL_COUNT as int,
            forall|i: int| 0 <= i < j ==> counts@[i] == seed_counts(m)[i],
            forall|i: int| 0 <= i < j ==> layer@[i] == seed_layer(m)[i],
            forall|i: int| 0 <= i < j ==> processed@[i] == seed_layer(m)[i],
            forall|i: int| j <= i < CELL_COUNT as int ==> counts@[i] == 0 && !layer@[i]
                && !processed@[i],
            has_layer == exists|i: int| 0 <= i < j && seed_layer(m)[i],
        decreases CELL_COUNT - j,
    {
        let p = position_at(j);
        if p.is_edge() && !b.is_obstructed(p) {
            counts.set(j, 1);
            layer.set(j, true);
            processed.set(j, true);
            has_layer = true;
            proof {
                assert(seed_layer(m)[j as int]);
            }
        } else {
            proof {
                assert(!seed_layer(m)[j as int]);
            }
        }
        j = j + 1;
    }
    proof {
        assert(counts@ =~= seed_counts(m));
        assert(layer@ =~= seed_layer(m));
        assert(processed@ =~= seed_layer(m));
    }

    let ghost mut fuel: nat = 120;
    proof {
        if wave_nonempty(layer@) {
            let wit = choose|i: int| 0 <= i < CELL_COUNT as int && layer@[i];
            crate::tables::lemma_count_true_positive(processed@, wit);
        }
    }
    loop
        invariant
            b@ == m,
            m.wf(),
            adjacency_table_wf(adj@),
            cat == m.cat,
            ci == m.cat.index(),
            counts@.len() == CELL_COUNT as int,
            layer@.len() == CELL_COUNT as int,
            processed@.len() == CELL_COUNT as int,
            has_layer == wave_nonempty(layer@),
            policy_rounds(m, counts@, layer@, processed@, fuel) == cat_move_spec(m),
            wave_nonempty(layer@) ==> fuel + count_true(processed@) >= 121,
            walls_uncounted(m, counts@),
            forall|i: int| 0 <= i < CELL_COUNT as int && layer@[i] ==> processed@[i],
        decreases fuel,
    {
        if !has_layer {
            return None;
        }
        if layer[ci] {
            let r = pick_step(&counts, &layer, cat);
            proof {
                lemma_neighbor_list_valid(m.cat);
                lemma_scan_best_props(counts@, layer@, m.cat.neighbor_list(), None, 0);
                match r {
                    Some(p) => {
                        lemma_neighbor_list_adjacent(m.cat, p);
                    },
                    None => {},
                }
            }
            return r;
        }
        let (nc, nl, np, any) = expand_wave(b, &adj, &counts, &layer, &processed);
        proof {
            crate::tables::lemma_count_true_bounds(processed@);
            if wave_nonempty(nl@) {
                let wit = choose|i: int| 0 <= i < CELL_COUNT as int && nl@[i];
                lemma_count_true_grows(processed@, np@, wit);
            }
            assert(walls_uncounted(m, nc@));
            fuel = (fuel - 1) as nat;
        }
        counts = nc;
        layer = nl;
        processed = np;
        has_layer = any;
    }
}

/// A cell the waves can have reached: some path over open cells leads
/// to it from an open edge cell.
pub open spec fn edge_connected(m: BoardModel, q: Position) -> bool {
    exists|s: Seq<Position>|
        crate::paths::is_path(m, s) && (#[trigger] s[0]).edge() && s.last() == q
}

/// Every wave cell is connected to an open edge cell.
pub open spec fn wave_edge_connected(m: BoardModel, layer: Seq<bool>) -> bool {
    forall|j: int| 0 <= j < CELL_COUNT as int && layer[j] ==> edge_connected(m, pos_at(j))
}

/// The seed wave is trivially edge-connected.
proof fn lemma_seed_edge_connected(m: BoardModel)
    requires
        m.wf(),
    ensures
        wave_edge_connected(m, seed_layer(m)),
{
    assert forall|j: int|
        0 <= j < CELL_COUNT as int && seed_layer(m)[j] implies edge_connected(m, pos_at(j)) by {
        crate::geometry::lemma_pos_at_index(j);
        let s = seq![pos_at(j)];
        assert(crate::paths::is_path(m, s) && s[0].edge() && s.last() == pos_at(j));
    }
}

/// One expansion step keeps the wave edge-connected: a new cell extends
/// a path of the wave neighbour that discovered it.
proof fn lemma_step_edge_connected(
    m: BoardModel,
    layer: Seq<bool>,
    processed: Seq<bool>,
)
    requires
        m.wf(),
        layer.len() == CELL_COUNT as int,
        wave_edge_connected(m, layer),
    ensures
        wave_edge_connected(m, step_layer(m, layer, processed)),
{
    assert forall|j: int|
        0 <= j < CELL_COUNT as int && step_layer(m, layer, processed)[j] implies edge_connected(
        m,
        pos_at(j),
    ) by {
        assert(joins_wave(m, layer, processed, j));
        crate::geometry::lemma_pos_at_index(j);
        let p = pos_at(j);
        let w = choose|w: int|
            0 <= w < p.neighbor_list().len() && layer[(#[trigger] p.neighbor_list()[w]).index()];
        let q = p.neighbor_list()[w];
        crate::geometry::lemma_neighbor_list_valid(p);
        assert(p.neighbor_list().contains(q));
        crate::geometry::lemma_neighbor_list_adjacent(p, q);
        crate::geometry::lemma_adjacent_symmetric(p, q);
        crate::geometry::lemma_index_pos_at(q);
        assert(layer[q.index()] && edge_connected(m, pos_at(q.index())));
        let s = choose|s: Seq<Position>|
            crate::paths::is_path(m, s) && (#[trigger] s[0]).edge() && s.last() == q;
        crate::paths::lemma_path_push(m, s, p);
        let t = s.push(p);
        assert(crate::paths::is_path(m, t) && t[0].edge() && t.last() == p);
    }
}

/// On a sealed board the waves never reach the cat.
proof fn lemma_rounds_sealed(
    m: BoardModel,
    counts: Seq<u64>,
    layer: Seq<bool>,
    processed: Seq<bool>,
    fuel: nat,
)
    requires
        m.wf(),
        layer.len() == CELL_COUNT as int,
        wave_edge_connected(m, layer),
        !crate::paths::escapable(m),
    ensures
        policy_rounds(m, counts, layer, processed, fuel) is None,
    decreases fuel,
{
    crate::geometry::lemma_index_pos_at(m.cat);
    if wave_nonempty(layer) && layer[m.cat.index()] {
        assert(edge_connected(m, pos_at(m.cat.index())));
        let s = choose|s: Seq<Position>|
            crate::paths::is_path(m, s) && (#[trigger] s[0]).edge() && s.last() == m.cat;
        crate::paths::lemma_path_reverse(m, s);
        assert(crate::paths::is_escape_path(m, s.reverse()));
        assert(false);
    } else if wave_nonempty(layer) && fuel > 0 {
        lemma_step_edge_connected(m, layer, processed);
        lemma_rounds_sealed(
            m,
            step_counts(m, counts, layer, processed),
            step_layer(m, layer, processed),
            step_processed(m, layer, processed),
            (fuel - 1) as nat,
        );
    }
}

/// A sealed cat is trapped: when no escape path exists at all, the
/// labelling waves from the open edge cells never reach the cat, and
/// the policy reports no move.  This is why the oracle's sentinel and
/// the policy's "no move" coincide as the planner's win test.
pub proof fn lemma_sealed_cat_trapped(m: BoardModel)
    requires
        m.wf(),
        !crate::paths::escapable(m),
    ensures
        cat_move_spec(m) is None,
{
    lemma_seed_edge_connected(m);
    lemma_rounds_sealed(m, seed_counts(m), seed_layer(m), seed_layer(m), 120);
}

impl Board {
    /// The cat's turn: run the labelling process and move the cat to
    /// the chosen cell, or report that it is trapped.  The chosen cell
    /// is always an unobstructed, in-bounds neighbour of the cat's
    /// current cell; a trapped cat leaves the board unchanged.
    pub fn move_cat(&mut self) -> (r: Option<Position>)
        requires
            old(self)@.wf(),
        ensures
            final(self)@.wf(),
            r == cat_move_spec(old(self)@),
            r matches Some(p) ==> p.valid() && !old(self)@.walls[p.index()] && adjacent(
                old(self)@.cat,
                p,
            ) && old(self)@.cat.neighbor_list().contains(p) && final(self)@ == old(
                self,
            )@.with_cat(p),
            r is None ==> final(self)@ == old(self)@,
    {
        let r = cat_move_decision(self);
        match r {
            Some(p) => {
                self.set_cat(p);
                Some(p)
            },
            None => None,
        }
    }
}

} // verus!
