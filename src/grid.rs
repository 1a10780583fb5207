//! The 9x9 board and its mathematical model.
use vstd::prelude::*;

verus! {

/// A sudoku board: `g[row][col]`, where 0 marks an empty cell and 1..=9 a placed digit.
pub type Grid = [[u8; 9]; 9];

/// The value at row `r`, column `c`.
pub open spec fn cell(g: Grid, r: int, c: int) -> u8 {
    g[r][c]
}

/// `(r, c)` names a cell of the board.
pub open spec fn in_board(r: int, c: int) -> bool {
    0 <= r < 9 && 0 <= c < 9
}

/// Row-major position of a cell.
pub open spec fn pos(r: int, c: int) -> int {
    r * 9 + c
}

/// Every cell holds 0 (empty) or a digit 1..=9.
pub open spec fn valid_grid(g: Grid) -> bool {
    forall|r: int, c: int| in_board(r, c) ==> #[trigger] cell(g, r, c) <= 9
}

/// Two distinct cells share a row, a column or a 3x3 block.
pub open spec fn peers(r1: int, c1: int, r2: int, c2: int) -> bool {
    &&& (r1 != r2 || c1 != c2)
    &&& (r1 == r2 || c1 == c2 || (r1 / 3 == r2 / 3 && c1 / 3 == c2 / 3))
}

/// The same non-zero digit stands in two peer cells.
pub open spec fn clash(g: Grid, r1: int, c1: int, r2: int, c2: int) -> bool {
    &&& peers(r1, c1, r2, c2)
    &&& cell(g, r1, c1) != 0
    &&& cell(g, r1, c1) == cell(g, r2, c2)
}

/// No row, column or block holds a non-zero digit twice.
pub open spec fn consistent(g: Grid) -> bool {
    forall|r1: int, c1: int, r2: int, c2: int|
        in_board(r1, c1) && in_board(r2, c2) ==> !#[trigger] clash(g, r1, c1, r2, c2)
}

/// No cell is empty.
pub open spec fn is_full(g: Grid) -> bool {
    forall|r: int, c: int| in_board(r, c) ==> #[trigger] cell(g, r, c) != 0
}

/// Writes `v` into the cell at row `r`, column `c`.
pub(crate) fn set_cell(field: &mut Grid, r: usize, c: usize, v: u8)
    requires
        r < 9,
        c < 9,
    ensures
        cell(*final(field), r as int, c as int) == v,
        forall|r2: int, c2: int| in_board(r2, c2) && (r2 != r || c2 != c)
            ==> #[trigger] cell(*final(field), r2, c2) == cell(*old(field), r2, c2),
{
    field[r][c] = v;
}

} // verus!
