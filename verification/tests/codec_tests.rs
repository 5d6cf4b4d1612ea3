use trapcat::board::Board;
use trapcat::codec::{parse_board, render_board, ParseError};
use trapcat::geometry::Position;

fn pos(r: i8, c: i8) -> Position {
    Position::new(r, c)
}

/// The canonical text of a board described by one symbol per cell.
fn canonical_text(rows: &[&str]) -> Vec<u8> {
    let mut out = String::new();
    for (r, row) in rows.iter().enumerate() {
        if r % 2 == 1 {
            out.push(' ');
        }
        for (c, ch) in row.chars().enumerate() {
            if c > 0 {
                out.push(' ');
            }
            out.push(ch);
        }
        out.push('\n');
    }
    out.into_bytes()
}

fn empty_rows() -> Vec<String> {
    (0..11).map(|_| "-".repeat(10)).collect()
}

#[test]
fn render_empty_board_with_cat() {
    let b = Board::empty(pos(5, 4));
    let mut rows = empty_rows();
    rows[5] = "----C-----".to_string();
    let refs: Vec<&str> = rows.iter().map(|s| s.as_str()).collect();
    assert_eq!(render_board(&b), canonical_text(&refs));
}

#[test]
fn render_walls_and_cat() {
    let mut b = Board::empty(pos(0, 0));
    assert!(b.place_obstacle(pos(0, 1)));
    assert!(b.place_obstacle(pos(10, 9)));
    let mut rows = empty_rows();
    rows[0] = "C#--------".to_string();
    rows[10] = "---------#".to_string();
    let refs: Vec<&str> = rows.iter().map(|s| s.as_str()).collect();
    assert_eq!(render_board(&b), canonical_text(&refs));
}

#[test]
fn parse_round_trips_a_rendered_board() {
    let mut b = Board::empty(pos(5, 4));
    assert!(b.place_obstacle(pos(0, 0)));
    assert!(b.place_obstacle(pos(3, 7)));
    assert!(b.place_obstacle(pos(9, 2)));
    let text = render_board(&b);
    let parsed = parse_board(&text).expect("rendered text must parse");
    assert_eq!(parsed.cat_position(), pos(5, 4));
    for r in 0..11 {
        for c in 0..10 {
            assert_eq!(parsed.is_obstructed(pos(r, c)), b.is_obstructed(pos(r, c)));
        }
    }
    // And rendering the parsed board reproduces the very same text.
    assert_eq!(render_board(&parsed), text);
}

#[test]
fn parse_ignores_all_spacing() {
    // No alignment spaces, no separators: still the same board.
    let mut compact = String::new();
    for r in 0..11 {
        for c in 0..10 {
            compact.push(if (r, c) == (5, 4) { 'C' } else { '-' });
        }
        compact.push('\n');
    }
    let b = parse_board(&compact.into_bytes()).expect("compact text must parse");
    assert_eq!(b.cat_position(), pos(5, 4));
    assert!(!b.is_obstructed(pos(0, 0)));
}

#[test]
fn parse_accepts_crlf_line_endings_and_tabs() {
    let mut rows = empty_rows();
    rows[5] = "----C-----".to_string();
    let refs: Vec<&str> = rows.iter().map(|s| s.as_str()).collect();
    let unix = canonical_text(&refs);
    let mut crlf = Vec::new();
    for &b in &unix {
        if b == b'\n' {
            crlf.push(b'\r');
        }
        crlf.push(b);
    }
    crlf.insert(0, b'\t');
    let b = parse_board(&crlf).expect("CRLF text must parse");
    assert_eq!(b.cat_position(), pos(5, 4));
    assert!(!b.is_obstructed(pos(0, 0)));
}

#[test]
fn parse_rejects_wrong_row_count() {
    let mut rows = empty_rows();
    rows[5] = "----C-----".to_string();
    rows.pop();
    let refs: Vec<&str> = rows.iter().map(|s| s.as_str()).collect();
    assert_eq!(parse_board(&canonical_text(&refs)).err(), Some(ParseError::WrongRowCount));
}

#[test]
fn parse_rejects_extra_blank_line() {
    let mut rows = empty_rows();
    rows[5] = "----C-----".to_string();
    let refs: Vec<&str> = rows.iter().map(|s| s.as_str()).collect();
    let mut text = canonical_text(&refs);
    text.push(b'\n');
    assert_eq!(parse_board(&text).err(), Some(ParseError::WrongRowCount));
}

#[test]
fn parse_rejects_wrong_column_count() {
    let mut rows = empty_rows();
    rows[5] = "----C-----".to_string();
    rows[7] = "-".repeat(9);
    let refs: Vec<&str> = rows.iter().map(|s| s.as_str()).collect();
    assert_eq!(parse_board(&canonical_text(&refs)).err(), Some(ParseError::WrongColumnCount));
}

#[test]
fn parse_rejects_bad_character() {
    let mut rows = empty_rows();
    rows[5] = "----C-----".to_string();
    rows[2] = "---X------".to_string();
    let refs: Vec<&str> = rows.iter().map(|s| s.as_str()).collect();
    assert_eq!(parse_board(&canonical_text(&refs)).err(), Some(ParseError::BadCharacter));
}

#[test]
fn parse_rejects_two_cats() {
    let mut rows = empty_rows();
    rows[5] = "----C-----".to_string();
    rows[8] = "--C-------".to_string();
    let refs: Vec<&str> = rows.iter().map(|s| s.as_str()).collect();
    assert_eq!(parse_board(&canonical_text(&refs)).err(), Some(ParseError::MultipleCats));
}

#[test]
fn parse_rejects_missing_cat() {
    let rows = empty_rows();
    let refs: Vec<&str> = rows.iter().map(|s| s.as_str()).collect();
    assert_eq!(parse_board(&canonical_text(&refs)).err(), Some(ParseError::MissingCat));
}

#[test]
fn column_count_error_precedes_later_rows() {
    // A short row 3 is reported even though row 6 has a bad byte.
    let mut rows = empty_rows();
    rows[3] = "-".repeat(11);
    rows[6] = "---Z------".to_string();
    let refs: Vec<&str> = rows.iter().map(|s| s.as_str()).collect();
    assert_eq!(parse_board(&canonical_text(&refs)).err(), Some(ParseError::WrongColumnCount));
}
