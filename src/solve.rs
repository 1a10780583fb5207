//! Depth-first backtracking search over the cells in row-major order.
use vstd::prelude::*;
use crate::grid::{Grid, cell, clash, consistent, in_board, is_full, peers, pos, valid_grid};
use crate::grid::set_cell;
use crate::validate::verify;

verus! {

/// `a` and `b` hold the same value in every cell.
pub open spec fn same_cells(a: Grid, b: Grid) -> bool {
    forall|r: int, c: int| in_board(r, c) ==> #[trigger] cell(a, r, c) == cell(b, r, c)
}

/// Searching from position `p`, the cell `(r, c)` of `g` is not to be changed:
/// it lies before the cursor or already holds a digit.
pub open spec fn is_fixed(g: Grid, p: int, r: int, c: int) -> bool {
    pos(r, c) < p || cell(g, r, c) != 0
}

/// Some cell at or after position `p` is empty.
pub open spec fn has_empty_from(g: Grid, p: int) -> bool {
    exists|r: int, c: int| in_board(r, c) && pos(r, c) >= p && #[trigger] cell(g, r, c) == 0
}

/// `h` is a solution of `g` searched from position `p`: it keeps every fixed cell of `g`,
/// holds a digit 1..=9 in every cell from `p` on, and is consistent.
pub open spec fn completes(h: Grid, g: Grid, p: int) -> bool {
    &&& forall|r: int, c: int| in_board(r, c) && is_fixed(g, p, r, c) ==> #[trigger] cell(h, r, c) == cell(g, r, c)
    &&& forall|r: int, c: int| in_board(r, c) && pos(r, c) >= p ==> 1 <= #[trigger] cell(h, r, c) <= 9
    &&& consistent(h)
}

/// `a` comes no later than `b` in row-major, ascending-digit order.
pub open spec fn lex_le(a: Grid, b: Grid) -> bool {
    ||| same_cells(a, b)
    ||| exists|r: int, c: int| #![trigger cell(a, r, c), cell(b, r, c)]
        in_board(r, c) && cell(a, r, c) < cell(b, r, c)
        && forall|r2: int, c2: int| in_board(r2, c2) && pos(r2, c2) < pos(r, c)
            ==> #[trigger] cell(a, r2, c2) == cell(b, r2, c2)
}

/// What a search from position `p` on `before` leaves behind (`after`) and reports (`r`).
/// - With no empty cell from `p` on, it reports success and changes nothing.
/// - Otherwise success means `after` is a solution, and the first one in row-major,
///   ascending-digit order.
/// - Failure means there is no solution, and every tentative write was undone.
pub open spec fn search_outcome(before: Grid, p: int, after: Grid, r: bool) -> bool {
    &&& !has_empty_from(before, p) ==> r && after == before
    &&& r && has_empty_from(before, p) ==> completes(after, before, p)
    &&& r ==> forall|h: Grid| completes(h, before, p) ==> #[trigger] lex_le(after, h)
    &&& !r ==> after == before
    &&& !r ==> forall|h: Grid| !#[trigger] completes(h, before, p)
}

/// Two boards that agree on every cell are equal.
pub proof fn lemma_same_cells_eq(a: Grid, b: Grid)
    requires
        same_cells(a, b),
    ensures
        a == b,
{
    assert forall|r: int| 0 <= r < 9 implies #[trigger] a[r] == b[r] by {
        assert forall|c: int| 0 <= c < 9 implies a[r][c] == b[r][c] by {
            assert(cell(a, r, c) == cell(b, r, c));
        }
        assert(a[r] =~= b[r]);
    }
    assert(a =~= b);
}

/// Emptying cells of a consistent board keeps it consistent.
pub proof fn lemma_sub_consistent(g: Grid, h: Grid)
    requires
        consistent(h),
        forall|r: int, c: int| in_board(r, c) ==> #[trigger] cell(g, r, c) == 0 || cell(g, r, c) == cell(h, r, c),
    ensures
        consistent(g),
{
    assert forall|r1: int, c1: int, r2: int, c2: int|
        in_board(r1, c1) && in_board(r2, c2) implies !#[trigger] clash(g, r1, c1, r2, c2) by {
        assert(!clash(h, r1, c1, r2, c2));
        assert(cell(g, r2, c2) == 0 || cell(g, r2, c2) == cell(h, r2, c2));
    }
}

/// Fills the empty cells of `field` from the cursor `(x, y)` (column, row) on, trying the
/// digits 1 to 9 in turn at each empty cell and checking the whole board after each try.
/// Cells that already hold a digit are kept as they are and are never checked.
/// The first call is `solve(field, 0, 0)`.
pub fn solve(field: &mut Grid, x: usize, y: usize) -> (r: bool)
    requires
        valid_grid(*old(field)),
        x <= 9,
        y * 9 + x <= 81,
    ensures
        search_outcome(*old(field), pos(y as int, x as int), *final(field), r),
    decreases 81 - (y * 9 + x),
{
    let ghost g0 = *field;
    let ghost p = pos(y as int, x as int);
    let mut col = x;
    let mut row = y;
    if col > 8 {
        col = 0;
        row += 1;
    }
    assert(p == pos(row as int, col as int));
    if row > 8 {
        assert forall|h: Grid| completes(h, g0, p) implies #[trigger] lex_le(g0, h) by {
            assert forall|r: int, c: int| in_board(r, c) implies #[trigger] cell(g0, r, c) == cell(h, r, c) by {
                assert(is_fixed(g0, p, r, c));
            }
        }
        return true;
    }
    if field[row][col] != 0 {
        let ok = solve(field, col + 1, row);
        proof {
            assert(cell(g0, row as int, col as int) != 0);
            assert forall|h: Grid| #![trigger completes(h, g0, p)] #![trigger completes(h, g0, p + 1)]
                completes(h, g0, p) <==> completes(h, g0, p + 1) by {
                assert forall|r: int, c: int| in_board(r, c) implies
                    (is_fixed(g0, p, r, c) <==> #[trigger] is_fixed(g0, p + 1, r, c)) by {
                    if pos(r, c) == p {
                        assert(r == row && c == col);
                    }
                }
                if completes(h, g0, p + 1) {
                    assert(is_fixed(g0, p + 1, row as int, col as int));
                }
            }
            if has_empty_from(g0, p) {
                let (r, c) = choose|r: int, c: int| in_board(r, c) && pos(r, c) >= p && #[trigger] cell(g0, r, c) == 0;
                assert(pos(r, c) != p);
                assert(has_empty_from(g0, p + 1));
            }
        }
        return ok;
    }
    let ghost (yi, xi) = (row as int, col as int);
    assert(has_empty_from(g0, p)) by {
        assert(in_board(yi, xi) && pos(yi, xi) >= p && cell(g0, yi, xi) == 0);
    }
    let mut n: u8 = 1;
    while n <= 9
        invariant
            1 <= n <= 10,
            col < 9,
            row < 9,
            yi == row,
            xi == col,
            p == pos(yi, xi),
            p == pos(y as int, x as int),
            g0 == *old(field),
            valid_grid(g0),
            cell(g0, yi, xi) == 0,
            cell(*field, yi, xi) == 0 || cell(*field, yi, xi) == n - 1,
            forall|r: int, c: int| in_board(r, c) && (r != yi || c != xi)
                ==> #[trigger] cell(*field, r, c) == cell(g0, r, c),
            forall|h: Grid| #[trigger] completes(h, g0, p) ==> cell(h, yi, xi) >= n,
        decreases 10 - n,
    {
        let ghost prev = *field;
        set_cell(field, row, col, n);
        let ghost g1 = *field;
        assert(cell(g1, yi, xi) == n);
        assert forall|r: int, c: int| in_board(r, c) && (r != yi || c != xi)
            implies #[trigger] cell(g1, r, c) == cell(g0, r, c) by {}
        assert(valid_grid(g1));
        // A solution of `g0` that puts `n` at the cursor is a solution of `g1` from the next cell.
        assert forall|h: Grid| #![trigger completes(h, g0, p)] #![trigger completes(h, g1, p + 1)]
            completes(h, g0, p) && cell(h, yi, xi) == n implies completes(h, g1, p + 1) by {
            assert forall|r: int, c: int| in_board(r, c) && is_fixed(g1, p + 1, r, c)
                implies #[trigger] cell(h, r, c) == cell(g1, r, c) by {
                if r != yi || c != xi {
                    assert(is_fixed(g0, p, r, c));
                }
            }
        }
        if verify(field) {
            if solve(field, col + 1, row) {
                proof {
                    let g2 = *field;
                    if has_empty_from(g1, p + 1) {
                        assert(completes(g2, g1, p + 1));
                    } else {
                        assert(g2 == g1);
                    }
                    assert forall|r: int, c: int| in_board(r, c) && is_fixed(g0, p, r, c)
                        implies #[trigger] cell(g2, r, c) == cell(g0, r, c) by {
                        assert(is_fixed(g1, p + 1, r, c));
                    }
                    assert forall|r: int, c: int| in_board(r, c) && pos(r, c) >= p
                        implies 1 <= #[trigger] cell(g2, r, c) <= 9 by {
                        if pos(r, c) == p {
                            assert(r == yi && c == xi);
                            assert(is_fixed(g1, p + 1, r, c));
                        }
                    }
                    assert(completes(g2, g0, p));
                    assert forall|h: Grid| completes(h, g0, p) implies #[trigger] lex_le(g2, h) by {
                        if cell(h, yi, xi) == n {
                            assert(completes(h, g1, p + 1));
                        } else {
                            assert(cell(g2, yi, xi) == n) by {
                                assert(is_fixed(g1, p + 1, yi, xi));
                            }
                            assert forall|r2: int, c2: int| in_board(r2, c2) && pos(r2, c2) < pos(yi, xi)
                                implies #[trigger] cell(g2, r2, c2) == cell(h, r2, c2) by {
                                assert(is_fixed(g0, p, r2, c2));
                            }
                            assert(cell(g2, yi, xi) < cell(h, yi, xi));
                        }
                    }
                }
                return true;
            }
        } else {
            assert forall|h: Grid| completes(h, g0, p) implies cell(h, yi, xi) != n by {
                if cell(h, yi, xi) == n {
                    assert forall|r: int, c: int| in_board(r, c)
                        implies #[trigger] cell(g1, r, c) == 0 || cell(g1, r, c) == cell(h, r, c) by {
                        if (r != yi || c != xi) && cell(g1, r, c) != 0 {
                            assert(is_fixed(g0, p, r, c));
                        }
                    }
                    lemma_sub_consistent(g1, h);
                }
            }
        }
        n += 1;
    }
    set_cell(field, row, col, 0);
    proof {
        assert forall|r: int, c: int| in_board(r, c) implies #[trigger] cell(*field, r, c) == cell(g0, r, c) by {}
        lemma_same_cells_eq(*field, g0);
    }
    false
}

/// The order `lex_le` is antisymmetric.
pub proof fn lemma_lex_le_antisymmetric(a: Grid, b: Grid)
    requires
        lex_le(a, b),
        lex_le(b, a),
    ensures
        same_cells(a, b),
{
    if !same_cells(a, b) {
        let (r1, c1) = choose|r: int, c: int| #![trigger cell(a, r, c), cell(b, r, c)]
            in_board(r, c) && cell(a, r, c) < cell(b, r, c)
            && forall|r2: int, c2: int| in_board(r2, c2) && pos(r2, c2) < pos(r, c)
                ==> #[trigger] cell(a, r2, c2) == cell(b, r2, c2);
        assert(!same_cells(b, a)) by {
            assert(cell(b, r1, c1) != cell(a, r1, c1));
        }
        let (r2, c2) = choose|r: int, c: int| #![trigger cell(b, r, c), cell(a, r, c)]
            in_board(r, c) && cell(b, r, c) < cell(a, r, c)
            && forall|r3: int, c3: int| in_board(r3, c3) && pos(r3, c3) < pos(r, c)
                ==> #[trigger] cell(b, r3, c3) == cell(a, r3, c3);
        if pos(r1, c1) < pos(r2, c2) {
            assert(cell(b, r1, c1) == cell(a, r1, c1));
        } else if pos(r2, c2) < pos(r1, c1) {
            assert(cell(a, r2, c2) == cell(b, r2, c2));
        } else {
            assert(r1 == r2 && c1 == c2);
        }
    }
}

/// A full, consistent, valid board solves itself.
proof fn lemma_full_completes_itself(g: Grid)
    requires
        valid_grid(g),
        is_full(g),
        consistent(g),
    ensures
        completes(g, g, 0),
{
    assert forall|r: int, c: int| in_board(r, c) && pos(r, c) >= 0 implies 1 <= #[trigger] cell(g, r, c) <= 9 by {
        assert(cell(g, r, c) != 0);
    }
}

/// Having no empty cell from the first position on is being full.
proof fn lemma_no_empty_is_full(g: Grid)
    ensures
        !has_empty_from(g, 0) <==> is_full(g),
{
    if !has_empty_from(g, 0) {
        assert forall|r: int, c: int| in_board(r, c) implies #[trigger] cell(g, r, c) != 0 by {
            assert(pos(r, c) >= 0);
        }
    }
}

/// A successful search from the first cell leaves a full, consistent board, unless the
/// board it started from was already full and inconsistent (pre-given digits are never checked).
pub proof fn lemma_solved_board_is_complete(before: Grid, after: Grid)
    requires
        valid_grid(before),
        consistent(before) || !is_full(before),
        search_outcome(before, 0, after, true),
    ensures
        consistent(after),
        is_full(after),
{
    lemma_no_empty_is_full(before);
    if has_empty_from(before, 0) {
        assert forall|r: int, c: int| in_board(r, c) implies #[trigger] cell(after, r, c) != 0 by {
            assert(pos(r, c) >= 0);
        }
    }
}

/// Searching a board that is already full and consistent succeeds and leaves it unchanged.
pub proof fn lemma_solved_board_is_kept(before: Grid, after: Grid, r: bool)
    requires
        is_full(before),
        consistent(before),
        search_outcome(before, 0, after, r),
    ensures
        r,
        after == before,
{
    lemma_no_empty_is_full(before);
}

/// Two searches of the same board from the first cell report the same result and leave
/// the same board.
pub proof fn lemma_search_is_deterministic(before: Grid, after1: Grid, r1: bool, after2: Grid, r2: bool)
    requires
        search_outcome(before, 0, after1, r1),
        search_outcome(before, 0, after2, r2),
    ensures
        r1 == r2,
        after1 == after2,
{
    if has_empty_from(before, 0) {
        if r1 {
            assert(completes(after1, before, 0));
        }
        if r2 {
            assert(completes(after2, before, 0));
        }
        if r1 && r2 {
            assert(lex_le(after1, after2));
            assert(lex_le(after2, after1));
            lemma_lex_le_antisymmetric(after1, after2);
            lemma_same_cells_eq(after1, after2);
        }
    }
}

/// A board with no solution makes the search fail and is handed back as it was.
/// A full, inconsistent board is left out: it has no solution, yet the search keeps it
/// and reports success, since pre-given digits are never checked.
pub proof fn lemma_unsolvable_board_fails(before: Grid, after: Grid, r: bool)
    requires
        valid_grid(before),
        consistent(before) || !is_full(before),
        forall|h: Grid| !#[trigger] completes(h, before, 0),
        search_outcome(before, 0, after, r),
    ensures
        !r,
        after == before,
{
    lemma_no_empty_is_full(before);
    if is_full(before) {
        lemma_full_completes_itself(before);
    }
}

/// The digit of a fixed solved board: within a band of three rows each row shifts the one
/// above by three places, and each band shifts the band above by one.
pub open spec fn pattern_digit(r: int, c: int) -> int {
    (3 * (r % 3) + r / 3 + c) % 9 + 1
}

/// A board that holds the pattern digits.
proof fn lemma_pattern_board() -> (h: Grid)
    ensures
        forall|r: int, c: int| in_board(r, c) ==> #[trigger] cell(h, r, c) == pattern_digit(r, c),
{
    let h: Grid = [
        [1, 2, 3, 4, 5, 6, 7, 8, 9],
        [4, 5, 6, 7, 8, 9, 1, 2, 3],
        [7, 8, 9, 1, 2, 3, 4, 5, 6],
        [2, 3, 4, 5, 6, 7, 8, 9, 1],
        [5, 6, 7, 8, 9, 1, 2, 3, 4],
        [8, 9, 1, 2, 3, 4, 5, 6, 7],
        [3, 4, 5, 6, 7, 8, 9, 1, 2],
        [6, 7, 8, 9, 1, 2, 3, 4, 5],
        [9, 1, 2, 3, 4, 5, 6, 7, 8],
    ];
    h
}

/// Adding the same amount keeps two different residues apart.
proof fn lemma_shift_keeps_apart(a: int, b: int, k: int)
    requires
        0 <= a < 9,
        0 <= b < 9,
        a != b,
        0 <= k < 18,
    ensures
        (a + k) % 9 != (b + k) % 9,
{
}

/// An index 0..9 splits into its block and its place within the block.
proof fn lemma_split_three(r: int)
    requires
        0 <= r < 9,
    ensures
        r == 3 * (r / 3) + r % 3,
        0 <= r / 3 < 3,
        0 <= r % 3 < 3,
{
}

/// Peer cells of the pattern board hold different digits.
proof fn lemma_pattern_peers_differ(r1: int, c1: int, r2: int, c2: int)
    requires
        in_board(r1, c1),
        in_board(r2, c2),
        peers(r1, c1, r2, c2),
    ensures
        pattern_digit(r1, c1) != pattern_digit(r2, c2),
{
    lemma_split_three(r1);
    lemma_split_three(r2);
    lemma_split_three(c1);
    lemma_split_three(c2);
    let (q1, m1, q2, m2) = (r1 / 3, r1 % 3, r2 / 3, r2 % 3);
    let (s1, s2) = (3 * m1 + q1, 3 * m2 + q2);
    if r1 == r2 {
        lemma_shift_keeps_apart(c1, c2, s1);
    } else if c1 == c2 {
        lemma_shift_keeps_apart(s1, s2, c1);
    } else {
        let (d, e1, e2) = (c1 / 3, c1 % 3, c2 % 3);
        assert(c2 / 3 == d);
        lemma_shift_keeps_apart(3 * m1 + e1, 3 * m2 + e2, q1 + 3 * d);
        assert(s1 + c1 == 3 * m1 + e1 + (q1 + 3 * d));
        assert(s2 + c2 == 3 * m2 + e2 + (q1 + 3 * d));
    }
}

/// The empty board has a solution.
pub proof fn lemma_empty_board_has_solution(g: Grid)
    requires
        forall|r: int, c: int| in_board(r, c) ==> #[trigger] cell(g, r, c) == 0,
    ensures
        exists|h: Grid| #[trigger] completes(h, g, 0),
{
    let h = lemma_pattern_board();
    assert forall|r1: int, c1: int, r2: int, c2: int|
        in_board(r1, c1) && in_board(r2, c2) implies !#[trigger] clash(h, r1, c1, r2, c2) by {
        if peers(r1, c1, r2, c2) {
            lemma_pattern_peers_differ(r1, c1, r2, c2);
        }
    }
    assert forall|r: int, c: int| in_board(r, c) && pos(r, c) >= 0 implies 1 <= #[trigger] cell(h, r, c) <= 9 by {
        assert(cell(h, r, c) == pattern_digit(r, c));
    }
    assert(completes(h, g, 0));
}

/// Searching the empty board succeeds, and leaves a full, consistent board.
pub proof fn lemma_empty_board_is_solved(before: Grid, after: Grid, r: bool)
    requires
        forall|r: int, c: int| in_board(r, c) ==> #[trigger] cell(before, r, c) == 0,
        search_outcome(before, 0, after, r),
    ensures
        r,
        consistent(after),
        is_full(after),
{
    lemma_empty_board_has_solution(before);
    assert(has_empty_from(before, 0)) by {
        assert(in_board(0, 0) && pos(0, 0) >= 0 && cell(before, 0, 0) == 0);
    }
    assert forall|r: int, c: int| in_board(r, c) implies #[trigger] cell(after, r, c) != 0 by {
        assert(pos(r, c) >= 0);
    }
}

} // verus!
