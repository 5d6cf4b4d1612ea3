use trapcat::geometry::{position_at, Position, CELL_COUNT, COLS, ROWS};

fn pos(r: i8, c: i8) -> Position {
    Position::new(r, c)
}

#[test]
fn board_dimensions() {
    assert_eq!(ROWS, 11);
    assert_eq!(COLS, 10);
    assert_eq!(CELL_COUNT, 110);
}

#[test]
fn neighbors_odd_row_interior() {
    // Row 5 is odd: its diagonal neighbours keep or raise the column.
    let ns = pos(5, 4).neighbors();
    assert_eq!(
        ns,
        vec![pos(5, 3), pos(4, 4), pos(4, 5), pos(5, 5), pos(6, 5), pos(6, 4)]
    );
}

#[test]
fn neighbors_even_row_interior() {
    // Row 4 is even: its diagonal neighbours keep or lower the column.
    let ns = pos(4, 4).neighbors();
    assert_eq!(
        ns,
        vec![pos(4, 3), pos(3, 3), pos(3, 4), pos(4, 5), pos(5, 4), pos(5, 3)]
    );
}

#[test]
fn neighbors_at_corner_are_clipped() {
    let ns = pos(0, 0).neighbors();
    assert_eq!(ns, vec![pos(0, 1), pos(1, 0)]);
}

#[test]
fn neighbors_at_right_edge_are_clipped() {
    // (1, 9) is on an odd row at the rightmost column.
    let ns = pos(1, 9).neighbors();
    assert_eq!(ns, vec![pos(1, 8), pos(0, 9), pos(2, 9)]);
}

#[test]
fn validity_bounds() {
    assert!(pos(0, 0).is_valid());
    assert!(pos(10, 9).is_valid());
    assert!(!pos(-1, 0).is_valid());
    assert!(!pos(11, 0).is_valid());
    assert!(!pos(0, 10).is_valid());
    assert!(!pos(0, -1).is_valid());
}

#[test]
fn edge_membership() {
    assert!(pos(0, 5).is_edge());
    assert!(pos(10, 5).is_edge());
    assert!(pos(5, 0).is_edge());
    assert!(pos(5, 9).is_edge());
    assert!(!pos(5, 5).is_edge());
    assert!(!pos(1, 1).is_edge());
}

#[test]
fn linear_index_round_trip() {
    assert_eq!(pos(0, 0).idx(), 0);
    assert_eq!(pos(5, 4).idx(), 54);
    assert_eq!(pos(10, 9).idx(), 109);
    assert_eq!(position_at(54), pos(5, 4));
    assert_eq!(position_at(0), pos(0, 0));
    assert_eq!(position_at(109), pos(10, 9));
}
