use trapcat::board::Board;
use trapcat::geometry::Position;

fn pos(r: i8, c: i8) -> Position {
    Position::new(r, c)
}

#[test]
fn empty_board_has_cat_and_no_walls() {
    let b = Board::empty(pos(5, 4));
    assert_eq!(b.cat_position(), pos(5, 4));
    for r in 0..11 {
        for c in 0..10 {
            assert!(!b.is_obstructed(pos(r, c)));
        }
    }
}

#[test]
fn place_obstacle_marks_the_cell() {
    let mut b = Board::empty(pos(5, 4));
    assert!(b.place_obstacle(pos(2, 3)));
    assert!(b.is_obstructed(pos(2, 3)));
    assert!(!b.is_obstructed(pos(2, 4)));
    assert!(!b.is_obstructed(pos(3, 3)));
}

#[test]
fn place_obstacle_rejects_occupied_cell() {
    let mut b = Board::empty(pos(5, 4));
    assert!(b.place_obstacle(pos(2, 3)));
    assert!(!b.place_obstacle(pos(2, 3)));
    assert!(b.is_obstructed(pos(2, 3)));
}

#[test]
fn place_obstacle_rejects_cat_cell() {
    let mut b = Board::empty(pos(5, 4));
    assert!(!b.place_obstacle(pos(5, 4)));
    assert!(!b.is_obstructed(pos(5, 4)));
}

#[test]
fn place_obstacle_rejects_out_of_bounds() {
    let mut b = Board::empty(pos(5, 4));
    assert!(!b.place_obstacle(pos(11, 0)));
    assert!(!b.place_obstacle(pos(-1, 5)));
    assert!(!b.place_obstacle(pos(0, 10)));
}

#[test]
fn duplicate_is_an_independent_copy() {
    let mut original = Board::empty(pos(5, 4));
    assert!(original.place_obstacle(pos(1, 1)));
    let mut copy = original.duplicate();
    assert_eq!(copy.cat_position(), pos(5, 4));
    assert!(copy.is_obstructed(pos(1, 1)));
    assert!(copy.place_obstacle(pos(7, 7)));
    assert!(copy.is_obstructed(pos(7, 7)));
    // The original must not see the copy's new wall.
    assert!(!original.is_obstructed(pos(7, 7)));
}
