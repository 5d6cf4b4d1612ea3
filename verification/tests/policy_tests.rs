use trapcat::board::Board;
use trapcat::geometry::Position;

fn pos(r: i8, c: i8) -> Position {
    Position::new(r, c)
}

/// The six neighbours of (5, 4), an odd row, in canonical order.
fn center_neighbors() -> Vec<Position> {
    vec![pos(5, 3), pos(4, 4), pos(4, 5), pos(5, 5), pos(6, 5), pos(6, 4)]
}

#[test]
fn open_cat_steps_to_an_open_neighbour() {
    let mut b = Board::empty(pos(5, 4));
    let mv = b.move_cat().expect("an open cat must have a move");
    assert!(center_neighbors().contains(&mv));
    assert!(!b.is_obstructed(mv));
    assert_eq!(b.cat_position(), mv);
}

#[test]
fn empty_board_cat_heads_for_the_near_edge() {
    // On the empty board the western boundary is nearest and richest:
    // the cat walks straight to it, one column per turn.
    let mut b = Board::empty(pos(5, 4));
    assert_eq!(b.move_cat(), Some(pos(5, 3)));
    assert_eq!(b.move_cat(), Some(pos(5, 2)));
    assert_eq!(b.move_cat(), Some(pos(5, 1)));
    assert_eq!(b.move_cat(), Some(pos(5, 0)));
    assert!(b.cat_position().is_edge());
}

#[test]
fn forced_cat_takes_the_only_open_neighbour() {
    let mut b = Board::empty(pos(5, 4));
    for n in center_neighbors() {
        if n != pos(5, 3) {
            assert!(b.place_obstacle(n));
        }
    }
    assert_eq!(b.move_cat(), Some(pos(5, 3)));
    assert_eq!(b.cat_position(), pos(5, 3));
}

#[test]
fn surrounded_cat_has_no_move() {
    let mut b = Board::empty(pos(5, 4));
    for n in center_neighbors() {
        assert!(b.place_obstacle(n));
    }
    assert_eq!(b.move_cat(), None);
    assert_eq!(b.cat_position(), pos(5, 4));
}

#[test]
fn sealed_cat_has_no_move_even_with_open_neighbours() {
    // A ring of walls at distance two: the inward waves from the edges
    // never reach the cat, so it is trapped although its own
    // neighbours are free.
    let mut b = Board::empty(pos(5, 4));
    for c in 2..=6 {
        assert!(b.place_obstacle(pos(3, c)));
        assert!(b.place_obstacle(pos(7, c)));
    }
    for r in 4..=6 {
        assert!(b.place_obstacle(pos(r, 2)));
        assert!(b.place_obstacle(pos(r, 6)));
    }
    assert_eq!(b.move_cat(), None);
    assert_eq!(b.cat_position(), pos(5, 4));
}

#[test]
fn richer_side_wins_over_poorer_side() {
    // Row 5 is an open corridor, rows 4 and 6 are fully walled, and
    // the west end of the corridor is shut: every route to the
    // boundary runs east, so the cat steps east.
    let mut b = Board::empty(pos(5, 4));
    for c in 0..10 {
        assert!(b.place_obstacle(pos(4, c)));
        assert!(b.place_obstacle(pos(6, c)));
    }
    assert!(b.place_obstacle(pos(5, 0)));
    assert_eq!(b.move_cat(), Some(pos(5, 5)));
}

#[test]
fn row_reflected_forced_move_is_the_reflected_forced_move() {
    // The grid's true symmetry is reflection across the middle row:
    // a board and its row reflection force reflected moves.
    let mut original = Board::empty(pos(3, 4));
    let mut reflected = Board::empty(pos(7, 4));
    for n in [pos(3, 3), pos(2, 5), pos(3, 5), pos(4, 5), pos(4, 4)] {
        assert!(original.place_obstacle(n));
    }
    for n in [pos(7, 3), pos(8, 5), pos(7, 5), pos(6, 5), pos(6, 4)] {
        assert!(reflected.place_obstacle(n));
    }
    // Open neighbour of the original cat: (2, 4); of the reflected
    // cat: (8, 4), its reflection.
    assert_eq!(original.move_cat(), Some(pos(2, 4)));
    assert_eq!(reflected.move_cat(), Some(pos(8, 4)));
}

#[test]
fn mirrored_forced_move_is_the_mirror_of_the_forced_move() {
    // A tie-free instance of the mirror claim: on an odd row the
    // parity-consistent column remap sends column c to 8 - c, and the
    // forced move west becomes a forced move east.
    let mut original = Board::empty(pos(5, 4));
    let mut mirrored = Board::empty(pos(5, 4));
    for n in center_neighbors() {
        if n != pos(5, 3) {
            assert!(original.place_obstacle(n));
        }
        if n != pos(5, 5) {
            assert!(mirrored.place_obstacle(n));
        }
    }
    let mv = original.move_cat().expect("forced move exists");
    let mv_m = mirrored.move_cat().expect("mirrored forced move exists");
    assert_eq!(mv, pos(5, 3));
    assert_eq!(mv_m, pos(5, 8 - 3));
}
