use trapcat::board::Board;
use trapcat::geometry::{Position, CELL_COUNT};
use trapcat::oracle::escape_distance;

fn pos(r: i8, c: i8) -> Position {
    Position::new(r, c)
}

/// Walls the perimeter of the rectangle of rows 3..=7, columns 2..=6,
/// sealing whatever sits inside it.
fn seal_rectangle(b: &mut Board) {
    for c in 2..=6 {
        assert!(b.place_obstacle(pos(3, c)));
        assert!(b.place_obstacle(pos(7, c)));
    }
    for r in 4..=6 {
        assert!(b.place_obstacle(pos(r, 2)));
        assert!(b.place_obstacle(pos(r, 6)));
    }
}

#[test]
fn center_of_empty_board_is_four_steps_from_the_boundary() {
    // The geometric centre of the 11 by 10 board: the nearest boundary
    // is the left column, four westward hops away.
    let b = Board::empty(pos(5, 4));
    assert_eq!(escape_distance(&b), 4);
}

#[test]
fn edge_cell_has_distance_zero() {
    let b = Board::empty(pos(0, 3));
    assert_eq!(escape_distance(&b), 0);
    let b2 = Board::empty(pos(6, 9));
    assert_eq!(escape_distance(&b2), 0);
}

#[test]
fn blocking_the_straight_route_adds_a_step() {
    let mut b = Board::empty(pos(5, 4));
    assert!(b.place_obstacle(pos(5, 3)));
    assert_eq!(escape_distance(&b), 5);
}

#[test]
fn sealed_cat_yields_the_sentinel() {
    let mut b = Board::empty(pos(5, 4));
    seal_rectangle(&mut b);
    assert_eq!(escape_distance(&b), CELL_COUNT);
}

#[test]
fn oracle_does_not_touch_the_board() {
    let mut b = Board::empty(pos(5, 4));
    assert!(b.place_obstacle(pos(1, 1)));
    let before = trapcat::codec::render_board(&b);
    let _ = escape_distance(&b);
    assert_eq!(trapcat::codec::render_board(&b), before);
}
