//! The board text codec.
//!
//! A board is exactly eleven lines of ten symbols from `C` (the cat),
//! `#` (a wall) and `-` (an empty cell), one space between symbols of a
//! row and a single leading space on odd rows, reflecting the staggered
//! hex layout.  The parser ignores every blank byte — spaces, tabs and
//! the carriage returns of CRLF line endings — so the alignment space
//! is accepted whether present or not, and it rejects malformed text
//! with a distinct error per defect.  Rendering is the exact inverse of
//! parsing, which `lemma_render_parse_roundtrip` proves.

use vstd::prelude::*;
use vstd::pervasive::VecAdditionalExecFns;

use crate::board::{Board, BoardModel};
use crate::geometry::{
    lemma_index_injective, lemma_index_pos_at, lemma_pos_at_index, pos_at, position_at, Position,
    CELL_COUNT,
};
use crate::tables::bool_table;

verus! {

/// The symbol byte of one cell: the cat, a wall, or an empty cell.
pub open spec fn symbol_at(m: BoardModel, r: int, c: int) -> u8 {
    if m.cat == (Position { r: r as i8, c: c as i8 }) {
        67u8  // 'C'
    } else if m.walls[r * 10 + c] {
        35u8  // '#'
    } else {
        45u8  // '-'
    }
}

/// The bytes of row `r` from column `c` on: each symbol after the
/// first is preceded by one space.
pub open spec fn render_cells(m: BoardModel, r: int, c: int) -> Seq<u8>
    decreases 10 - c,
{
    if c < 0 || c >= 10 {
        Seq::empty()
    } else if c > 0 {
        seq![32u8] + seq![symbol_at(m, r, c)] + render_cells(m, r, c + 1)
    } else {
        seq![symbol_at(m, r, c)] + render_cells(m, r, c + 1)
    }
}

/// The bytes of one row line, without its newline: odd rows carry a
/// single leading alignment space.
pub open spec fn render_line(m: BoardModel, r: int) -> Seq<u8> {
    if r % 2 == 1 {
        seq![32u8] + render_cells(m, r, 0)
    } else {
        render_cells(m, r, 0)
    }
}

/// The bytes of the rows from `r` down, each line ending in a newline.
pub open spec fn render_rows(m: BoardModel, r: int) -> Seq<u8>
    decreases 11 - r,
{
    if r < 0 || r >= 11 {
        Seq::empty()
    } else {
        render_line(m, r) + seq![10u8] + render_rows(m, r + 1)
    }
}

/// The text encoding of a board.
pub open spec fn render_spec(m: BoardModel) -> Seq<u8> {
    render_rows(m, 0)
}

/// Renders the board to its text encoding.
pub fn render_board(b: &Board) -> (out: Vec<u8>)
    requires
        b@.wf(),
    ensures
        out@ == render_spec(b@),
{
    let ghost m = b@;
    let cat = b.cat_position();
    let mut out: Vec<u8> = Vec::new();
    let mut r: usize = 0;
    while r < 11
        invariant
            b@ == m,
            m.wf(),
            cat == m.cat,
            r <= 11,
            render_spec(m) == out@ + render_rows(m, r as int),
        decreases 11 - r,
    {
        proof {
            assert(render_spec(m) =~= out@ + (render_line(m, r as int) + seq![10u8] + render_rows(
                m,
                r as int + 1,
            )));
        }
        if r % 2 == 1 {
            out.push(32);
        }
        proof {
            assert(out@ + render_cells(m, r as int, 0) + seq![10u8] + render_rows(m, r as int + 1)
                =~= render_spec(m));
        }
        let mut c: usize = 0;
        while c < 10
            invariant
                b@ == m,
                m.wf(),
                cat == m.cat,
                r < 11,
                c <= 10,
                render_spec(m) == out@ + render_cells(m, r as int, c as int) + seq![10u8]
                    + render_rows(m, r as int + 1),
            decreases 10 - c,
        {
            if c > 0 {
                out.push(32);
            }
            let p = Position { r: r as i8, c: c as i8 };
            let sym: u8 = if p.r == cat.r && p.c == cat.c {
                67
            } else if b.is_obstructed(p) {
                35
            } else {
                45
            };
            proof {
                assert(p.index() == r * 10 + c);
                assert(sym == symbol_at(m, r as int, c as int));
            }
            out.push(sym);
            proof {
                assert(render_spec(m) =~= out@ + render_cells(m, r as int, c as int + 1)
                    + seq![10u8] + render_rows(m, r as int + 1));
            }
            c = c + 1;
        }
        out.push(10);
        proof {
            assert(render_spec(m) =~= out@ + render_rows(m, r as int + 1));
        }
        r = r + 1;
    }
    proof {
        assert(out@ =~= render_spec(m));
    }
    out
}

/// Why a board text was rejected.
#[derive(Clone, Copy, PartialEq, Eq, Structural, Debug)]
pub enum ParseError {
    /// A symbol other than `C`, `#` or `-`.
    BadCharacter,
    /// More than one cat.
    MultipleCats,
    /// No cat at all.
    MissingCat,
    /// Not exactly eleven lines.
    WrongRowCount,
    /// A line with other than ten symbols.
    WrongColumnCount,
}

/// The index of the first newline in `s`, or its length when there is
/// none.
pub open spec fn find_newline(s: Seq<u8>) -> nat
    decreases s.len(),
{
    if s.len() == 0 {
        0
    } else if s[0] == 10 {
        0
    } else {
        (1 + find_newline(s.drop_first())) as nat
    }
}

/// `s` split at its newlines; a trailing newline closes the last line
/// rather than opening an empty one.
pub open spec fn split_lines(s: Seq<u8>) -> Seq<Seq<u8>>
    decreases s.len(),
{
    if s.len() == 0 {
        Seq::empty()
    } else {
        let k = find_newline(s);
        if k >= s.len() {
            seq![s]
        } else {
            seq![s.take(k as int)] + split_lines(s.skip(k as int + 1))
        }
    }
}

/// A blank byte the parser ignores between symbols: space, tab, or the
/// carriage return of a CRLF line ending.
pub open spec fn is_blank(b: u8) -> bool {
    b == 32 || b == 9 || b == 13
}

/// The line with every blank byte removed: only the symbols remain.
pub open spec fn strip_spaces(s: Seq<u8>) -> Seq<u8>
    decreases s.len(),
{
    if s.len() == 0 {
        Seq::empty()
    } else if is_blank(s[0]) {
        strip_spaces(s.drop_first())
    } else {
        seq![s[0]] + strip_spaces(s.drop_first())
    }
}

/// Reads the symbols of row `r` from column `c` on into the obstacle
/// bitmap and the cat position found so far.
pub open spec fn parse_row(
    sym: Seq<u8>,
    r: int,
    c: int,
    walls: Seq<bool>,
    cat: Option<Position>,
) -> Result<(Seq<bool>, Option<Position>), ParseError>
    decreases 10 - c,
{
    if c < 0 || c >= 10 {
        Ok((walls, cat))
    } else {
        let b = sym[c];
        if b == 67 {
            match cat {
                Some(_) => Err(ParseError::MultipleCats),
                None => parse_row(sym, r, c + 1, walls, Some(Position { r: r as i8, c: c as i8 })),
            }
        } else if b == 35 {
            parse_row(sym, r, c + 1, walls.update(r * 10 + c, true), cat)
        } else if b == 45 {
            parse_row(sym, r, c + 1, walls, cat)
        } else {
            Err(ParseError::BadCharacter)
        }
    }
}

/// Reads the lines from row `r` down; at the end exactly one cat must
/// have been found.
pub open spec fn parse_rows(
    ls: Seq<Seq<u8>>,
    r: int,
    walls: Seq<bool>,
    cat: Option<Position>,
) -> Result<BoardModel, ParseError>
    decreases 11 - r,
{
    if r < 0 || r >= 11 {
        match cat {
            Some(cp) => Ok(BoardModel { walls, cat: cp }),
            None => Err(ParseError::MissingCat),
        }
    } else {
        let sym = strip_spaces(ls[r]);
        if sym.len() != 10 {
            Err(ParseError::WrongColumnCount)
        } else {
            match parse_row(sym, r, 0, walls, cat) {
                Ok((w, ct)) => parse_rows(ls, r + 1, w, ct),
                Err(e) => Err(e),
            }
        }
    }
}

/// What parsing a board text yields: eleven lines of ten symbols each,
/// blanks ignored, with exactly one cat; or the first defect found,
/// reading rows top to bottom and symbols left to right.
pub open spec fn parse_spec(s: Seq<u8>) -> Result<BoardModel, ParseError> {
    let ls = split_lines(s);
    if ls.len() != 11 {
        Err(ParseError::WrongRowCount)
    } else {
        parse_rows(ls, 0, Seq::new(CELL_COUNT as nat, |j: int| false), None)
    }
}

/// A boundary position `k` that is not preceded by a newline and is
/// either the text's end or a newline is the first newline.
proof fn lemma_find_newline_first(s: Seq<u8>, k: int)
    requires
        0 <= k <= s.len(),
        k < s.len() ==> s[k] == 10,
        forall|i: int| 0 <= i < k ==> s[i] != 10,
    ensures
        find_newline(s) == k,
    decreases s.len(),
{
    if s.len() > 0 && s[0] != 10 {
        let t = s.drop_first();
        assert(forall|i: int| 0 <= i < t.len() ==> t[i] == s[i + 1]);
        lemma_find_newline_first(t, k - 1);
    }
}

/// The views of a vector of lines.
pub open spec fn views_of(lines: Seq<Vec<u8>>) -> Seq<Seq<u8>> {
    lines.map_values(|l: Vec<u8>| l@)
}

/// Splits the text at its newlines.
fn split_into_lines(text: &Vec<u8>) -> (lines: Vec<Vec<u8>>)
    ensures
        views_of(lines@) == split_lines(text@),
{
    let mut lines: Vec<Vec<u8>> = Vec::new();
    let mut pos: usize = 0;
    proof {
        assert(text@.skip(0) =~= text@);
    }
    while pos < text.len()
        invariant
            pos <= text@.len(),
            split_lines(text@) == views_of(lines@) + split_lines(text@.skip(pos as int)),
        decreases text@.len() - pos,
    {
        let mut end = pos;
        while end < text.len() && text[end] != 10
            invariant
                pos <= end <= text@.len(),
                forall|i: int| pos <= i < end ==> text@[i] != 10,
            decreases text@.len() - end,
        {
            end = end + 1;
        }
        let mut line: Vec<u8> = Vec::new();
        let mut k = pos;
        while k < end
            invariant
                pos <= k <= end <= text@.len(),
                line@ == text@.subrange(pos as int, k as int),
            decreases end - k,
        {
            line.push(text[k]);
            k = k + 1;
        }
        let ghost rest = text@.skip(pos as int);
        proof {
            assert(forall|i: int| 0 <= i < rest.len() ==> rest[i] == text@[pos + i]);
            lemma_find_newline_first(rest, end - pos);
            assert(line@ =~= rest.take(end - pos));
            assert(views_of(lines@.push(line)) =~= views_of(lines@).push(line@));
        }
        lines.push(line);
        if end < text.len() {
            proof {
                assert(rest.skip(end - pos + 1) =~= text@.skip(end as int + 1));
                assert(views_of(lines@) + split_lines(text@.skip(end as int + 1)) =~= split_lines(
                    text@,
                ));
            }
            pos = end + 1;
        } else {
            proof {
                assert(split_lines(rest) =~= seq![rest]);
                assert(rest =~= line@);
                assert(text@.skip(text@.len() as int) =~= Seq::<u8>::empty());
                assert(views_of(lines@) + split_lines(text@.skip(text@.len() as int))
                    =~= split_lines(text@));
            }
            pos = text.len();
        }
    }
    proof {
        assert(text@.skip(pos as int) =~= Seq::<u8>::empty());
        assert(views_of(lines@) =~= split_lines(text@));
    }
    lines
}

/// Removes every blank byte from a line.
fn strip_spaces_exec(line: &Vec<u8>) -> (sym: Vec<u8>)
    ensures
        sym@ == strip_spaces(line@),
{
    let mut sym: Vec<u8> = Vec::new();
    let mut w: usize = 0;
    proof {
        assert(line@.skip(0) =~= line@);
    }
    while w < line.len()
        invariant
            w <= line@.len(),
            strip_spaces(line@) == sym@ + strip_spaces(line@.skip(w as int)),
        decreases line@.len() - w,
    {
        proof {
            assert(line@.skip(w as int).drop_first() =~= line@.skip(w as int + 1));
            assert(line@.skip(w as int)[0] == line@[w as int]);
        }
        let b = line[w];
        if !(b == 32 || b == 9 || b == 13) {
            sym.push(b);
            proof {
                assert(sym@ + strip_spaces(line@.skip(w as int + 1)) =~= strip_spaces(line@));
            }
        }
        w = w + 1;
    }
    proof {
        assert(line@.skip(line@.len() as int) =~= Seq::<u8>::empty());
        assert(sym@ =~= strip_spaces(line@));
    }
    sym
}

/// Parses a board text: exactly eleven lines of ten symbols from
/// `{C, #, -}` with exactly one `C`; spaces, tabs and carriage
/// returns, including the alignment space of odd rows, are ignored.
/// Each defect is reported as its own error, exactly as `parse_spec`
/// lays down.
pub fn parse_board(text: &Vec<u8>) -> (r: Result<Board, ParseError>)
    ensures
        match r {
            Ok(b) => b@.wf() && parse_spec(text@) == Ok::<BoardModel, ParseError>(b@),
            Err(e) => parse_spec(text@) == Err::<BoardModel, ParseError>(e),
        },
{
    let ghost ls = split_lines(text@);
    let lines = split_into_lines(text);
    proof {
        assert(lines@.len() == ls.len());
    }
    if lines.len() != 11 {
        return Err(ParseError::WrongRowCount);
    }
    let mut walls = bool_table(CELL_COUNT, false);
    let mut cat_opt: Option<Position> = None;
    proof {
        assert(walls@ =~= Seq::new(CELL_COUNT as nat, |j: int| false));
    }
    let mut r: usize = 0;
    while r < 11
        invariant
            lines@.len() == 11,
            ls == split_lines(text@),
            ls.len() == 11,
            views_of(lines@) == ls,
            walls@.len() == CELL_COUNT as int,
            r <= 11,
            parse_spec(text@) == parse_rows(ls, r as int, walls@, cat_opt),
            cat_opt matches Some(cp) ==> cp.valid() && cp.index() < r * 10,
            forall|j: int| r * 10 <= j < CELL_COUNT as int ==> !walls@[j],
            cat_opt matches Some(cp) ==> !walls@[cp.index()],
        decreases 11 - r,
    {
        let sym = strip_spaces_exec(&lines[r]);
        proof {
            assert(lines@[r as int]@ == ls[r as int]);
        }
        if sym.len() != 10 {
            return Err(ParseError::WrongColumnCount);
        }
        let mut c: usize = 0;
        while c < 10
            invariant
                r < 11,
                c <= 10,
                sym@.len() == 10,
                walls@.len() == CELL_COUNT as int,
                parse_spec(text@) == (match parse_row(sym@, r as int, c as int, walls@, cat_opt) {
                    Ok((w, ct)) => parse_rows(ls, r as int + 1, w, ct),
                    Err(e) => Err(e),
                }),
                cat_opt matches Some(cp) ==> cp.valid() && cp.index() < r * 10 + c,
                forall|j: int| r * 10 + c <= j < CELL_COUNT as int ==> !walls@[j],
                cat_opt matches Some(cp) ==> !walls@[cp.index()],
            decreases 10 - c,
        {
            let bch = sym[c];
            if bch == 67 {
                match cat_opt {
                    Some(_) => {
                        return Err(ParseError::MultipleCats);
                    },
                    None => {
                        cat_opt = Some(Position { r: r as i8, c: c as i8 });
                    },
                }
            } else if bch == 35 {
                let idx = r * 10 + c;
                walls.set(idx, true);
            } else if bch == 45 {
            } else {
                return Err(ParseError::BadCharacter);
            }
            c = c + 1;
        }
        r = r + 1;
    }
    match cat_opt {
        None => Err(ParseError::MissingCat),
        Some(cp) => {
            let bd = board_from_tables(&walls, cp);
            Ok(bd)
        },
    }
}

/// Builds a board from an obstacle table and the cat's cell.
fn board_from_tables(walls: &Vec<bool>, cp: Position) -> (bd: Board)
    requires
        walls@.len() == CELL_COUNT as int,
        cp.valid(),
        !walls@[cp.index()],
    ensures
        bd@.wf(),
        bd@ == (BoardModel { walls: walls@, cat: cp }),
{
    let mut bd = Board::empty(cp);
    let mut j: usize = 0;
    while j < CELL_COUNT
        invariant
            walls@.len() == CELL_COUNT as int,
            cp.valid(),
            !walls@[cp.index()],
            j <= CELL_COUNT,
            bd@.wf(),
            bd@.cat == cp,
            bd@.walls.len() == CELL_COUNT as int,
            forall|i: int|
                0 <= i < CELL_COUNT as int ==> (#[trigger] bd@.walls[i]) == (i < j && walls@[i]),
        decreases CELL_COUNT - j,
    {
        let ghost pre = bd@;
        if walls[j] {
            let p = position_at(j);
            proof {
                if p == cp {
                    assert(false);
                }
            }
            let placed = bd.place_obstacle(p);
            proof {
                assert(placed);
                assert(bd@.walls == pre.walls.update(j as int, true));
                assert forall|i: int|
                    0 <= i < CELL_COUNT as int implies (#[trigger] bd@.walls[i]) == (i < j + 1
                    && walls@[i]) by {
                    if i != j {
                        assert(bd@.walls[i] == pre.walls[i]);
                    }
                }
            }
        }
        j = j + 1;
    }
    proof {
        assert(bd@.walls =~= walls@);
        assert(bd@ == (BoardModel { walls: walls@, cat: cp }));
    }
    bd
}

/// No byte of a rendered row tail is a newline.
proof fn lemma_render_cells_no_newline(m: BoardModel, r: int, c: int)
    ensures
        forall|i: int|
            0 <= i < render_cells(m, r, c).len() ==> #[trigger] render_cells(m, r, c)[i] != 10,
    decreases 10 - c,
{
    if 0 <= c < 10 {
        lemma_render_cells_no_newline(m, r, c + 1);
        assert forall|i: int|
            0 <= i < render_cells(m, r, c).len() implies #[trigger] render_cells(m, r, c)[i]
            != 10 by {
            let rest = render_cells(m, r, c + 1);
            if c > 0 {
                if i >= 2 {
                    assert(render_cells(m, r, c)[i] == rest[i - 2]);
                }
            } else {
                if i >= 1 {
                    assert(render_cells(m, r, c)[i] == rest[i - 1]);
                }
            }
        }
    }
}

/// Stripping a one-byte line keeps or drops that byte.
proof fn lemma_strip_singleton(b: u8)
    ensures
        strip_spaces(seq![b]) == if is_blank(b) {
            Seq::<u8>::empty()
        } else {
            seq![b]
        },
{
    assert(seq![b].drop_first() =~= Seq::<u8>::empty());
    assert(strip_spaces(Seq::<u8>::empty()) =~= Seq::<u8>::empty());
    if !is_blank(b) {
        assert(seq![b] + Seq::<u8>::empty() =~= seq![b]);
    }
}

/// No byte of a rendered row line is a newline.
proof fn lemma_render_line_no_newline(m: BoardModel, r: int)
    ensures
        forall|i: int|
            0 <= i < render_line(m, r).len() ==> #[trigger] render_line(m, r)[i] != 10,
{
    lemma_render_cells_no_newline(m, r, 0);
}

/// Splitting text that opens with a newline-free line takes exactly
/// that line off.
proof fn lemma_split_at_newline(a: Seq<u8>, rest: Seq<u8>)
    requires
        forall|i: int| 0 <= i < a.len() ==> #[trigger] a[i] != 10,
    ensures
        split_lines(a + seq![10u8] + rest) == seq![a] + split_lines(rest),
{
    let s = a + seq![10u8] + rest;
    lemma_find_newline_first(s, a.len() as int);
    assert(s.take(a.len() as int) =~= a);
    assert(s.skip(a.len() as int + 1) =~= rest);
}

/// The rendered text splits into exactly the eleven row lines.
proof fn lemma_split_render(m: BoardModel, r: int)
    requires
        0 <= r <= 11,
    ensures
        split_lines(render_rows(m, r)) =~= Seq::new((11 - r) as nat, |i: int| render_line(m, r + i)),
    decreases 11 - r,
{
    if r < 11 {
        lemma_split_render(m, r + 1);
        lemma_render_line_no_newline(m, r);
        lemma_split_at_newline(render_line(m, r), render_rows(m, r + 1));
        assert(render_rows(m, r) == render_line(m, r) + seq![10u8] + render_rows(m, r + 1));
    } else {
        assert(render_rows(m, r) =~= Seq::<u8>::empty());
    }
}

/// Stripping distributes over concatenation.
proof fn lemma_strip_concat(a: Seq<u8>, b: Seq<u8>)
    ensures
        strip_spaces(a + b) == strip_spaces(a) + strip_spaces(b),
    decreases a.len(),
{
    if a.len() == 0 {
        assert(a + b =~= b);
        assert(strip_spaces(a) + strip_spaces(b) =~= strip_spaces(b));
    } else {
        assert((a + b).drop_first() =~= a.drop_first() + b);
        lemma_strip_concat(a.drop_first(), b);
        if a[0] != 32 {
            assert(seq![a[0]] + (strip_spaces(a.drop_first()) + strip_spaces(b)) =~= (seq![a[0]]
                + strip_spaces(a.drop_first())) + strip_spaces(b));
        }
    }
}

/// Stripping a rendered row tail leaves exactly its symbols.
proof fn lemma_strip_cells(m: BoardModel, r: int, c: int)
    requires
        0 <= c <= 10,
    ensures
        strip_spaces(render_cells(m, r, c)) =~= Seq::new(
            (10 - c) as nat,
            |i: int| symbol_at(m, r, c + i),
        ),
    decreases 10 - c,
{
    if c < 10 {
        lemma_strip_cells(m, r, c + 1);
        let sym = seq![symbol_at(m, r, c)];
        let rest = render_cells(m, r, c + 1);
        lemma_strip_singleton(symbol_at(m, r, c));
        lemma_strip_singleton(32u8);
        if c > 0 {
            assert(render_cells(m, r, c) == seq![32u8] + sym + rest);
            lemma_strip_concat(seq![32u8] + sym, rest);
            lemma_strip_concat(seq![32u8], sym);
            assert(strip_spaces(seq![32u8] + sym) =~= sym);
        } else {
            assert(render_cells(m, r, c) == sym + rest);
            lemma_strip_concat(sym, rest);
        }
    }
}

/// Stripping a rendered row line leaves exactly its ten symbols.
proof fn lemma_strip_line(m: BoardModel, r: int)
    ensures
        strip_spaces(render_line(m, r)) =~= Seq::new(10, |c: int| symbol_at(m, r, c)),
{
    lemma_strip_cells(m, r, 0);
    if r % 2 == 1 {
        lemma_strip_concat(seq![32u8], render_cells(m, r, 0));
        lemma_strip_singleton(32u8);
        assert(strip_spaces(render_line(m, r)) =~= strip_spaces(render_cells(m, r, 0)));
    }
}

/// Parsing the symbols of row `r` extends the reconstructed bitmap and
/// cat by exactly that row of the original board.
proof fn lemma_parse_row_roundtrip(
    m: BoardModel,
    sym: Seq<u8>,
    r: int,
    c: int,
    walls: Seq<bool>,
    cat: Option<Position>,
)
    requires
        m.wf(),
        0 <= r < 11,
        0 <= c <= 10,
        sym == Seq::new(10, |i: int| symbol_at(m, r, i)),
        walls.len() == CELL_COUNT as int,
        forall|j: int| 0 <= j < CELL_COUNT as int ==> walls[j] == (j < r * 10 + c && m.walls[j]),
        cat == (if m.cat.index() < r * 10 + c {
            Some(m.cat)
        } else {
            None::<Position>
        }),
    ensures
        parse_row(sym, r, c, walls, cat) == Ok::<(Seq<bool>, Option<Position>), ParseError>(
            (
                Seq::new(CELL_COUNT as nat, |j: int| j < (r + 1) * 10 && m.walls[j]),
                if m.cat.index() < (r + 1) * 10 {
                    Some(m.cat)
                } else {
                    None::<Position>
                },
            ),
        ),
    decreases 10 - c,
{
    lemma_index_pos_at(m.cat);
    if c == 10 {
        assert(walls =~= Seq::new(CELL_COUNT as nat, |j: int| j < (r + 1) * 10 && m.walls[j]));
    } else {
        let p = Position { r: r as i8, c: c as i8 };
        let idx = r * 10 + c;
        assert(p.valid() && p.index() == idx);
        if m.cat == p {
            assert(sym[c] == 67);
            assert(m.cat.index() == idx);
            assert(cat is None);
            assert(!m.walls[idx]);
            assert forall|j: int|
                0 <= j < CELL_COUNT as int implies walls[j] == (j < idx + 1 && m.walls[j]) by {}
            lemma_parse_row_roundtrip(m, sym, r, c + 1, walls, Some(p));
        } else {
            assert(m.cat.index() != idx) by {
                if m.cat.index() == idx {
                    lemma_index_injective(m.cat, p);
                }
            }
            if m.walls[idx] {
                assert(sym[c] == 35);
                let w1 = walls.update(idx, true);
                assert forall|j: int|
                    0 <= j < CELL_COUNT as int implies w1[j] == (j < idx + 1 && m.walls[j]) by {}
                assert(cat == (if m.cat.index() < idx + 1 {
                    Some(m.cat)
                } else {
                    None::<Position>
                }));
                lemma_parse_row_roundtrip(m, sym, r, c + 1, w1, cat);
            } else {
                assert(sym[c] == 45);
                assert forall|j: int|
                    0 <= j < CELL_COUNT as int implies walls[j] == (j < idx + 1 && m.walls[j]) by {}
                assert(cat == (if m.cat.index() < idx + 1 {
                    Some(m.cat)
                } else {
                    None::<Position>
                }));
                lemma_parse_row_roundtrip(m, sym, r, c + 1, walls, cat);
            }
        }
    }
}

/// Parsing the rendered rows from `r` down completes the board.
proof fn lemma_parse_rows_roundtrip(
    m: BoardModel,
    ls: Seq<Seq<u8>>,
    r: int,
    walls: Seq<bool>,
    cat: Option<Position>,
)
    requires
        m.wf(),
        0 <= r <= 11,
        ls.len() == 11,
        forall|i: int| 0 <= i < 11 ==> ls[i] == render_line(m, i),
        walls.len() == CELL_COUNT as int,
        forall|j: int| 0 <= j < CELL_COUNT as int ==> walls[j] == (j < r * 10 && m.walls[j]),
        cat == (if m.cat.index() < r * 10 {
            Some(m.cat)
        } else {
            None::<Position>
        }),
    ensures
        parse_rows(ls, r, walls, cat) == Ok::<BoardModel, ParseError>(m),
    decreases 11 - r,
{
    lemma_index_pos_at(m.cat);
    if r == 11 {
        assert(cat == Some(m.cat));
        assert(walls =~= m.walls);
    } else {
        lemma_strip_line(m, r);
        let sym = strip_spaces(ls[r]);
        assert(sym == Seq::new(10, |i: int| symbol_at(m, r, i)));
        lemma_parse_row_roundtrip(m, sym, r, 0, walls, cat);
        let w2 = Seq::new(CELL_COUNT as nat, |j: int| j < (r + 1) * 10 && m.walls[j]);
        let c2: Option<Position> = if m.cat.index() < (r + 1) * 10 {
            Some(m.cat)
        } else {
            None
        };
        lemma_parse_rows_roundtrip(m, ls, r + 1, w2, c2);
    }
}

/// Round trip: rendering a well-formed board and parsing the result
/// yields the identical obstacle bitmap and cat position.
pub proof fn lemma_render_parse_roundtrip(m: BoardModel)
    requires
        m.wf(),
    ensures
        parse_spec(render_spec(m)) == Ok::<BoardModel, ParseError>(m),
{
    lemma_split_render(m, 0);
    let ls = split_lines(render_spec(m));
    assert(ls.len() == 11);
    assert(forall|i: int| 0 <= i < 11 ==> ls[i] == render_line(m, i));
    let walls0 = Seq::new(CELL_COUNT as nat, |j: int| false);
    assert(forall|j: int| 0 <= j < CELL_COUNT as int ==> walls0[j] == (j < 0 && m.walls[j]));
    lemma_index_pos_at(m.cat);
    lemma_parse_rows_roundtrip(m, ls, 0, walls0, None);
}

} // verus!
