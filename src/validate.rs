//! The consistency check used to prune the search.
use vstd::prelude::*;
use crate::grid::{Grid, cell, clash, consistent, in_board};

verus! {

/// Some non-zero value occurs twice in `s`.
pub open spec fn seq_has_duplicate(s: Seq<u8>) -> bool {
    exists|i: int, j: int|
        0 <= i < s.len() && 0 <= j < s.len() && i != j && #[trigger] s[i] != 0 && s[i] == #[trigger] s[j]
}

/// Whether a non-zero value occurs more than once in `arr`; zeros are ignored.
pub fn has_duplicate(arr: &[u8; 9]) -> (r: bool)
    ensures
        r == seq_has_duplicate(arr@),
{
    let mut j: usize = 1;
    while j < 9
        invariant
            1 <= j <= 9,
            forall|a: int, b: int|
                0 <= a < b < j ==> !(#[trigger] arr@[a] != 0 && arr@[a] == #[trigger] arr@[b]),
        decreases 9 - j,
    {
        let mut i: usize = 0;
        while i < j
            invariant
                1 <= j < 9,
                0 <= i <= j,
                forall|a: int, b: int|
                    0 <= a < b < j ==> !(#[trigger] arr@[a] != 0 && arr@[a] == #[trigger] arr@[b]),
                forall|a: int| 0 <= a < i ==> !(#[trigger] arr@[a] != 0 && arr@[a] == arr@[j as int]),
            decreases j - i,
        {
            if arr[i] != 0 && arr[i] == arr[j] {
                assert(arr@[i as int] != 0 && arr@[i as int] == arr@[j as int]);
                return true;
            }
            i += 1;
        }
        j += 1;
    }
    assert forall|a: int, b: int|
        0 <= a < 9 && 0 <= b < 9 && a != b implies !(#[trigger] arr@[a] != 0 && arr@[a] == #[trigger] arr@[b]) by {
        if a > b {
            assert(!(arr@[b] != 0 && arr@[b] == arr@[a]));
        }
    }
    false
}

/// Whether `g` is consistent: no non-zero digit repeats within a row, a column or a 3x3 block.
/// Every call scans the whole board.
pub fn verify(field: &Grid) -> (r: bool)
    ensures
        r == consistent(*field),
{
    let g = *field;
    // Rows.
    let mut row: usize = 0;
    while row < 9
        invariant
            g == *field,
            0 <= row <= 9,
            forall|r1: int, c1: int, c2: int|
                0 <= r1 < row && in_board(r1, c1) && in_board(r1, c2) ==> !#[trigger] clash(g, r1, c1, r1, c2),
        decreases 9 - row,
    {
        let line = field[row];
        if has_duplicate(&line) {
            let ghost i = choose|i: int, j: int|
                0 <= i < 9 && 0 <= j < 9 && i != j && #[trigger] line@[i] != 0 && line@[i] == #[trigger] line@[j];
            let ghost (a, b) = i;
            assert(clash(g, row as int, a, row as int, b));
            return false;
        }
        assert forall|c1: int, c2: int| in_board(row as int, c1) && in_board(row as int, c2)
            implies !#[trigger] clash(g, row as int, c1, row as int, c2) by {
            if c1 != c2 {
                assert(!(line@[c1] != 0 && line@[c1] == line@[c2]));
            }
        }
        row += 1;
    }
    // Columns.
    let mut coln: usize = 0;
    while coln < 9
        invariant
            g == *field,
            0 <= coln <= 9,
            forall|r1: int, c1: int, c2: int|
                in_board(r1, c1) && in_board(r1, c2) ==> !#[trigger] clash(g, r1, c1, r1, c2),
            forall|c: int, r1: int, r2: int|
                0 <= c < coln && in_board(r1, c) && in_board(r2, c) ==> !#[trigger] clash(g, r1, c, r2, c),
        decreases 9 - coln,
    {
        let mut col = [0u8; 9];
        let mut n: usize = 0;
        while n < 9
            invariant
                g == *field,
                0 <= n <= 9,
                coln < 9,
                forall|k: int| 0 <= k < n ==> #[trigger] col@[k] == cell(g, k, coln as int),
            decreases 9 - n,
        {
            col[n] = field[n][coln];
            n += 1;
        }
        if has_duplicate(&col) {
            let ghost i = choose|i: int, j: int|
                0 <= i < 9 && 0 <= j < 9 && i != j && #[trigger] col@[i] != 0 && col@[i] == #[trigger] col@[j];
            let ghost (a, b) = i;
            assert(clash(g, a, coln as int, b, coln as int));
            return false;
        }
        assert forall|r1: int, r2: int| in_board(r1, coln as int) && in_board(r2, coln as int)
            implies !#[trigger] clash(g, r1, coln as int, r2, coln as int) by {
            if r1 != r2 {
                assert(!(col@[r1] != 0 && col@[r1] == col@[r2]));
            }
        }
        coln += 1;
    }
    // Blocks.
    let mut block_x: usize = 0;
    while block_x < 3
        invariant
            g == *field,
            0 <= block_x <= 3,
            forall|r1: int, c1: int, c2: int|
                in_board(r1, c1) && in_board(r1, c2) ==> !#[trigger] clash(g, r1, c1, r1, c2),
            forall|c: int, r1: int, r2: int|
                in_board(r1, c) && in_board(r2, c) ==> !#[trigger] clash(g, r1, c, r2, c),
            forall|r1: int, c1: int, r2: int, c2: int|
                in_board(r1, c1) && in_board(r2, c2) && r1 / 3 == r2 / 3 && c1 / 3 == c2 / 3
                    && c1 / 3 < block_x ==> !#[trigger] clash(g, r1, c1, r2, c2),
        decreases 3 - block_x,
    {
        let mut block_y: usize = 0;
        while block_y < 3
            invariant
                g == *field,
                0 <= block_x < 3,
                0 <= block_y <= 3,
                forall|r1: int, c1: int, r2: int, c2: int|
                    in_board(r1, c1) && in_board(r2, c2) && r1 / 3 == r2 / 3 && c1 / 3 == c2 / 3
                        && (c1 / 3 < block_x || (c1 / 3 == block_x && r1 / 3 < block_y))
                        ==> !#[trigger] clash(g, r1, c1, r2, c2),
            decreases 3 - block_y,
        {
            let mut block = [0u8; 9];
            let mut y: usize = 0;
            while y < 3
                invariant
                    g == *field,
                    0 <= y <= 3,
                    block_x < 3,
                    block_y < 3,
                    forall|k: int| 0 <= k < y * 3 ==> #[trigger] block@[k] == cell(
                        g, block_y * 3 + k / 3, block_x * 3 + k % 3),
                decreases 3 - y,
            {
                let mut x: usize = 0;
                while x < 3
                    invariant
                        g == *field,
                        0 <= y < 3,
                        0 <= x <= 3,
                        block_x < 3,
                        block_y < 3,
                        forall|k: int| 0 <= k < y * 3 + x ==> #[trigger] block@[k] == cell(
                            g, block_y * 3 + k / 3, block_x * 3 + k % 3),
                    decreases 3 - x,
                {
                    block[y * 3 + x] = field[block_y * 3 + y][block_x * 3 + x];
                    x += 1;
                }
                y += 1;
            }
            if has_duplicate(&block) {
                let ghost i = choose|i: int, j: int|
                    0 <= i < 9 && 0 <= j < 9 && i != j && #[trigger] block@[i] != 0 && block@[i] == #[trigger] block@[j];
                let ghost (a, b) = i;
                assert(clash(g, block_y * 3 + a / 3, block_x * 3 + a % 3, block_y * 3 + b / 3, block_x * 3 + b % 3));
                return false;
            }
            assert forall|r1: int, c1: int, r2: int, c2: int|
                in_board(r1, c1) && in_board(r2, c2) && r1 / 3 == r2 / 3 && c1 / 3 == c2 / 3
                    && (c1 / 3 < block_x || (c1 / 3 == block_x && r1 / 3 < block_y + 1))
                implies !#[trigger] clash(g, r1, c1, r2, c2) by {
                if c1 / 3 == block_x && r1 / 3 == block_y {
                    let a = (r1 - block_y * 3) * 3 + (c1 - block_x * 3);
                    let b = (r2 - block_y * 3) * 3 + (c2 - block_x * 3);
                    assert(block@[a] == cell(g, r1, c1));
                    assert(block@[b] == cell(g, r2, c2));
                    if a != b {
                        assert(!(block@[a] != 0 && block@[a] == block@[b]));
                    }
                }
            }
            block_y += 1;
        }
        block_x += 1;
    }
    assert forall|r1: int, c1: int, r2: int, c2: int|
        in_board(r1, c1) && in_board(r2, c2) implies !#[trigger] clash(g, r1, c1, r2, c2) by {
        if r1 == r2 {
            assert(!clash(g, r1, c1, r1, c2));
        } else if c1 == c2 {
            assert(!clash(g, r1, c1, r2, c1));
        }
    }
    true
}

} // verus!
