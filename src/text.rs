//! The board as text: reading it from nine lines of digits and dashes, and laying it out
//! for display.
use vstd::prelude::*;
use vstd::string::{StringExecFns, StringSliceAdditionalSpecFns};
use crate::grid::{Grid, cell, in_board, set_cell, valid_grid};

verus! {

/// The character shown for a cell value 0..=9: `-` for an empty cell, else the digit.
pub open spec fn cell_char(v: u8) -> char {
    seq!['-', '1', '2', '3', '4', '5', '6', '7', '8', '9'][v as int]
}

/// The first `k` cells of row `r`, with a space after the third and the sixth.
pub open spec fn row_prefix(g: Grid, r: int, k: int) -> Seq<char>
    decreases k,
{
    if k <= 0 {
        Seq::empty()
    } else {
        let gap = if k - 1 == 2 || k - 1 == 5 { seq![' '] } else { Seq::empty() };
        row_prefix(g, r, k - 1).push(cell_char(cell(g, r, k - 1))) + gap
    }
}

/// Row `r` as one line, with a blank line after the third and the sixth row.
pub open spec fn row_text(g: Grid, r: int) -> Seq<char> {
    let gap = if r == 2 || r == 5 { seq!['\n'] } else { Seq::empty() };
    row_prefix(g, r, 9).push('\n') + gap
}

/// The text of the first `k` rows.
pub open spec fn rows_text(g: Grid, k: int) -> Seq<char>
    decreases k,
{
    if k <= 0 {
        Seq::empty()
    } else {
        rows_text(g, k - 1) + row_text(g, k - 1)
    }
}

/// The whole board as it is shown.
pub open spec fn render(g: Grid) -> Seq<char> {
    rows_text(g, 9)
}

/// The text of one cell value.
fn cell_str(v: u8) -> (s: &'static str)
    requires
        v <= 9,
    ensures
        s@ == seq![cell_char(v)],
{
    proof {
        reveal_strlit("-");
        reveal_strlit("1");
        reveal_strlit("2");
        reveal_strlit("3");
        reveal_strlit("4");
        reveal_strlit("5");
        reveal_strlit("6");
        reveal_strlit("7");
        reveal_strlit("8");
        reveal_strlit("9");
    }
    let s = match v {
        0 => "-",
        1 => "1",
        2 => "2",
        3 => "3",
        4 => "4",
        5 => "5",
        6 => "6",
        7 => "7",
        8 => "8",
        _ => "9",
    };
    assert(s@ =~= seq![cell_char(v)]);
    s
}

/// Lays the board out as nine lines of nine characters (a digit, or `-` for an empty cell),
/// with a space after the third and the sixth character of each line and a blank line
/// after the third and the sixth line.
pub fn format_field(field: &Grid) -> (s: String)
    requires
        valid_grid(*field),
    ensures
        s@ == render(*field),
{
    let ghost g = *field;
    proof {
        reveal_strlit(" ");
        reveal_strlit("\n");
    }
    let mut s = String::new();
    let mut row: usize = 0;
    while row < 9
        invariant
            g == *field,
            valid_grid(g),
            0 <= row <= 9,
            s@ == rows_text(g, row as int),
            " "@ == seq![' '],
            "\n"@ == seq!['\n'],
        decreases 9 - row,
    {
        let ghost before = s@;
        let mut col: usize = 0;
        while col < 9
            invariant
                g == *field,
                valid_grid(g),
                0 <= row < 9,
                0 <= col <= 9,
                s@ == before + row_prefix(g, row as int, col as int),
                " "@ == seq![' '],
            decreases 9 - col,
        {
            assert(cell(g, row as int, col as int) <= 9);
            s.append(cell_str(field[row][col]));
            if col == 2 || col == 5 {
                s.append(" ");
            }
            col += 1;
            proof {
                assert(s@ =~= before + row_prefix(g, row as int, col as int));
            }
        }
        s.append("\n");
        if row == 2 || row == 5 {
            s.append("\n");
        }
        row += 1;
        proof {
            assert(s@ =~= rows_text(g, row as int));
        }
    }
    s
}

/// Why a board could not be read from text.
#[derive(Debug, Clone, Copy, PartialEq, Eq)]
pub enum LoadError {
    /// The text does not hold exactly nine lines.
    RowCount,
    /// A line does not hold exactly nine bytes.
    ColumnCount,
    /// A cell is neither a digit 1 to 9 nor `-`.
    BadCharacter,
}

impl LoadError {
    /// A message for the user.
    pub fn message(&self) -> (s: String) {
        match self {
            LoadError::RowCount => String::from_str("Unexpected row size"),
            LoadError::ColumnCount => String::from_str("Unexpected column size"),
            LoadError::BadCharacter => String::from_str("Unexpected character"),
        }
    }
}

/// `l` with one trailing carriage return removed.
pub open spec fn strip_cr(l: Seq<u8>) -> Seq<u8> {
    if l.len() > 0 && l.last() == 13 {
        l.drop_last()
    } else {
        l
    }
}

/// Reading `b` from the start: the lines ended by a line feed so far, each without its
/// line ending, and the bytes of the line still open.
pub open spec fn split_state(b: Seq<u8>) -> (Seq<Seq<u8>>, Seq<u8>)
    decreases b.len(),
{
    if b.len() == 0 {
        (Seq::empty(), Seq::empty())
    } else {
        let (done, open) = split_state(b.drop_last());
        if b.last() == 10 {
            (done.push(strip_cr(open)), Seq::empty())
        } else {
            (done, open.push(b.last()))
        }
    }
}

/// The lines of `b`: split at each line feed, with a carriage return before it dropped;
/// a last line without a line feed counts when it is not empty.
pub open spec fn lines(b: Seq<u8>) -> Seq<Seq<u8>> {
    let (done, open) = split_state(b);
    if open.len() == 0 {
        done
    } else {
        done.push(open)
    }
}

/// A byte that may stand for a cell: `-` or a digit 1 to 9.
pub open spec fn is_cell_byte(c: u8) -> bool {
    c == 45 || (49 <= c && c <= 57)
}

/// The cell value a byte stands for: 0 for `-`, else the digit.
pub open spec fn cell_value(c: u8) -> u8 {
    if c == 45 {
        0
    } else {
        (c - 48) as u8
    }
}

/// Some line of `ls` does not hold nine bytes.
pub open spec fn has_bad_length(ls: Seq<Seq<u8>>) -> bool {
    exists|i: int| 0 <= i < ls.len() && #[trigger] ls[i].len() != 9
}

/// Some line of `ls` holds a byte that stands for no cell.
pub open spec fn has_bad_byte(ls: Seq<Seq<u8>>) -> bool {
    exists|i: int, j: int| 0 <= i < ls.len() && 0 <= j < ls[i].len() && !is_cell_byte(#[trigger] ls[i][j])
}

/// What reading the text `b` gives: the first of the three errors that applies,
/// in the order row count, line length, character; else the board it spells out.
pub open spec fn parse_outcome(b: Seq<u8>, res: Result<Grid, LoadError>) -> bool {
    let ls = lines(b);
    if ls.len() != 9 {
        res == Err::<Grid, LoadError>(LoadError::RowCount)
    } else if has_bad_length(ls) {
        res == Err::<Grid, LoadError>(LoadError::ColumnCount)
    } else if has_bad_byte(ls) {
        res == Err::<Grid, LoadError>(LoadError::BadCharacter)
    } else {
        &&& res is Ok
        &&& forall|r: int, c: int| in_board(r, c) ==> #[trigger] cell(res->Ok_0, r, c) == cell_value(ls[r][c])
    }
}

/// Splits `b` into its lines, as `lines` describes them.
fn split_lines(b: &[u8]) -> (ls: Vec<Vec<u8>>)
    ensures
        ls@.len() == lines(b@).len(),
        forall|i: int| 0 <= i < ls@.len() ==> #[trigger] ls@[i]@ == lines(b@)[i],
{
    let mut done: Vec<Vec<u8>> = Vec::new();
    let mut open: Vec<u8> = Vec::new();
    let mut i: usize = 0;
    while i < b.len()
        invariant
            0 <= i <= b@.len(),
            done@.len() == split_state(b@.take(i as int)).0.len(),
            forall|k: int| 0 <= k < done@.len() ==> #[trigger] done@[k]@ == split_state(b@.take(i as int)).0[k],
            open@ == split_state(b@.take(i as int)).1,
        decreases b@.len() - i,
    {
        assert(b@.take(i as int + 1).drop_last() =~= b@.take(i as int));
        if b[i] == 10 {
            let mut line = open;
            let n = line.len();
            if n > 0 && line[n - 1] == 13 {
                line.pop();
            }
            assert(line@ =~= strip_cr(split_state(b@.take(i as int)).1));
            done.push(line);
            open = Vec::new();
        } else {
            open.push(b[i]);
        }
        i += 1;
    }
    assert(b@.take(i as int) =~= b@);
    if open.len() > 0 {
        done.push(open);
    }
    done
}

/// Reads a board from text: exactly nine lines of exactly nine bytes, each `-` (an empty
/// cell) or a digit 1 to 9; a line ends with a line feed, or a carriage return and a line
/// feed, and the last line ending may be left out.
pub fn parse_field(text: &str) -> (res: Result<Grid, LoadError>)
    ensures
        parse_outcome(text.spec_bytes(), res),
        res is Ok ==> valid_grid(res->Ok_0),
{
    let b = text.as_bytes();
    let ls = split_lines(b);
    let ghost sl = lines(b@);
    if ls.len() != 9 {
        return Err(LoadError::RowCount);
    }
    let mut r: usize = 0;
    while r < 9
        invariant
            ls@.len() == 9,
            sl.len() == 9,
            sl == lines(text.spec_bytes()),
            0 <= r <= 9,
            forall|i: int| 0 <= i < 9 ==> #[trigger] ls@[i]@ == sl[i],
            forall|i: int| 0 <= i < r ==> #[trigger] sl[i].len() == 9,
        decreases 9 - r,
    {
        if ls[r].len() != 9 {
            assert(sl[r as int].len() != 9);
            return Err(LoadError::ColumnCount);
        }
        r += 1;
    }
    assert(!has_bad_length(sl));
    let mut field: Grid = [[0u8; 9]; 9];
    let mut r: usize = 0;
    while r < 9
        invariant
            ls@.len() == 9,
            sl.len() == 9,
            sl == lines(text.spec_bytes()),
            0 <= r <= 9,
            forall|i: int| 0 <= i < 9 ==> #[trigger] ls@[i]@ == sl[i],
            forall|i: int| 0 <= i < 9 ==> #[trigger] sl[i].len() == 9,
            !has_bad_length(sl),
            forall|i: int, j: int| 0 <= i < r && 0 <= j < 9 ==> is_cell_byte(#[trigger] sl[i][j]),
            forall|i: int, j: int| 0 <= i < r && 0 <= j < 9 ==> #[trigger] cell(field, i, j) == cell_value(sl[i][j]),
        decreases 9 - r,
    {
        let line = &ls[r];
        assert(line@ == sl[r as int]);
        let mut c: usize = 0;
        while c < 9
            invariant
                ls@.len() == 9,
                sl.len() == 9,
                sl == lines(text.spec_bytes()),
                !has_bad_length(sl),
                0 <= r < 9,
                0 <= c <= 9,
                line@ == sl[r as int],
                forall|i: int| 0 <= i < 9 ==> #[trigger] sl[i].len() == 9,
                forall|i: int, j: int| 0 <= i < r && 0 <= j < 9 ==> is_cell_byte(#[trigger] sl[i][j]),
                forall|j: int| 0 <= j < c ==> is_cell_byte(#[trigger] sl[r as int][j]),
                forall|i: int, j: int| 0 <= i < r && 0 <= j < 9 ==> #[trigger] cell(field, i, j) == cell_value(sl[i][j]),
                forall|j: int| 0 <= j < c ==> #[trigger] cell(field, r as int, j) == cell_value(sl[r as int][j]),
            decreases 9 - c,
        {
            let ch = line[c];
            if ch == 45 {
                set_cell(&mut field, r, c, 0);
            } else if 49 <= ch && ch <= 57 {
                set_cell(&mut field, r, c, ch - 48);
            } else {
                assert(!is_cell_byte(sl[r as int][c as int]));
                assert(has_bad_byte(sl));
                return Err(LoadError::BadCharacter);
            }
            c += 1;
        }
        r += 1;
    }
    assert(!has_bad_byte(sl));
    assert forall|i: int, j: int| in_board(i, j) implies #[trigger] cell(field, i, j) <= 9 by {
        assert(is_cell_byte(sl[i][j]));
    }
    Ok(field)
}

} // verus!
