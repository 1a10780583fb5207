use sudoku::grid::Grid;
use sudoku::solve::solve;
use sudoku::validate::{has_duplicate, verify};

fn grid_of(rows: [&str; 9]) -> Grid {
    let mut g = [[0u8; 9]; 9];
    for (r, line) in rows.iter().enumerate() {
        for (c, ch) in line.chars().enumerate() {
            g[r][c] = if ch == '-' { 0 } else { ch.to_digit(10).unwrap() as u8 };
        }
    }
    g
}

fn classic_puzzle() -> Grid {
    grid_of([
        "53--7----", "6--195---", "-98----6-", "8---6---3", "4--8-3--1", "7---2---6", "-6----28-",
        "---419--5", "----8--79",
    ])
}

fn classic_solution() -> Grid {
    grid_of([
        "534678912", "672195348", "198342567", "859761423", "426853791", "713924856", "961537284",
        "287419635", "345286179",
    ])
}

fn is_full(g: &Grid) -> bool {
    g.iter().all(|row| row.iter().all(|&v| (1..=9).contains(&v)))
}

#[test]
fn has_duplicate_ignores_zeros() {
    assert!(!has_duplicate(&[0, 0, 0, 1, 2, 3, 0, 0, 0]));
    assert!(!has_duplicate(&[0; 9]));
    assert!(!has_duplicate(&[1, 2, 3, 4, 5, 6, 7, 8, 9]));
}

#[test]
fn has_duplicate_finds_repeat() {
    assert!(has_duplicate(&[1, 0, 0, 0, 0, 0, 0, 0, 1]));
    assert!(has_duplicate(&[0, 0, 0, 0, 7, 7, 0, 0, 0]));
}

#[test]
fn verify_accepts_empty_and_solved() {
    assert!(verify(&[[0u8; 9]; 9]));
    assert!(verify(&classic_solution()));
    assert!(verify(&classic_puzzle()));
}

#[test]
fn verify_rejects_row_repeat() {
    let mut g = [[0u8; 9]; 9];
    g[4][0] = 5;
    g[4][8] = 5;
    assert!(!verify(&g));
}

#[test]
fn verify_rejects_column_repeat() {
    let mut g = [[0u8; 9]; 9];
    g[0][6] = 3;
    g[8][6] = 3;
    assert!(!verify(&g));
}

#[test]
fn verify_rejects_block_repeat() {
    let mut g = [[0u8; 9]; 9];
    g[3][3] = 9;
    g[5][5] = 9;
    assert!(!verify(&g));
    // Same digit in different blocks, rows and columns is fine.
    g[5][5] = 0;
    g[6][6] = 9;
    assert!(verify(&g));
}

#[test]
fn solve_classic_puzzle() {
    let mut g = classic_puzzle();
    assert!(solve(&mut g, 0, 0));
    assert_eq!(g, classic_solution());
    assert!(verify(&g));
    assert!(is_full(&g));
}

#[test]
fn solve_keeps_given_digits() {
    let given = classic_puzzle();
    let mut g = given;
    assert!(solve(&mut g, 0, 0));
    for r in 0..9 {
        for c in 0..9 {
            if given[r][c] != 0 {
                assert_eq!(g[r][c], given[r][c]);
            }
        }
    }
}

#[test]
fn solve_empty_board() {
    let mut g = [[0u8; 9]; 9];
    assert!(solve(&mut g, 0, 0));
    assert!(verify(&g));
    assert!(is_full(&g));
    // The first completion in row-major, ascending-digit order.
    assert_eq!(g[0], [1, 2, 3, 4, 5, 6, 7, 8, 9]);
    assert_eq!(g[1], [4, 5, 6, 7, 8, 9, 1, 2, 3]);
    assert_eq!(g[2], [7, 8, 9, 1, 2, 3, 4, 5, 6]);
}

#[test]
fn solve_solved_board_is_unchanged() {
    let mut g = classic_solution();
    assert!(solve(&mut g, 0, 0));
    assert_eq!(g, classic_solution());
}

#[test]
fn solve_is_deterministic() {
    let mut a = classic_puzzle();
    let mut b = classic_puzzle();
    assert_eq!(solve(&mut a, 0, 0), solve(&mut b, 0, 0));
    assert_eq!(a, b);
    let mut e1 = [[0u8; 9]; 9];
    let mut e2 = [[0u8; 9]; 9];
    assert!(solve(&mut e1, 0, 0));
    assert!(solve(&mut e2, 0, 0));
    assert_eq!(e1, e2);
}

#[test]
fn solve_unsolvable_restores_board() {
    // The last cell of the first row has no digit left: 1..8 are in its row, 9 in its column.
    let given = grid_of([
        "12345678-", "--------9", "---------", "---------", "---------", "---------", "---------",
        "---------", "---------",
    ]);
    let mut g = given;
    assert!(!solve(&mut g, 0, 0));
    assert_eq!(g, given);
}

#[test]
fn solve_unsolvable_after_backtracking_restores_board() {
    // Every digit fits the first cell on its own, but no completion exists:
    // column 0 lacks 1 and 2, which row 0 and row 1 both already hold.
    let given = grid_of([
        "-3456789-", "-12------", "---------", "3--------", "4--------", "5--------", "6--------",
        "7--------", "8--------",
    ]);
    let mut g = given;
    assert!(!solve(&mut g, 0, 0));
    assert_eq!(g, given);
}

#[test]
fn solve_conflicting_givens_fail() {
    let mut given = [[0u8; 9]; 9];
    given[0][0] = 4;
    given[0][5] = 4;
    let mut g = given;
    assert!(!solve(&mut g, 0, 0));
    assert_eq!(g, given);
}

#[test]
fn solve_full_inconsistent_board_is_not_checked() {
    let mut given = classic_solution();
    given[0][0] = 9;
    let mut g = given;
    assert!(solve(&mut g, 0, 0));
    assert_eq!(g, given);
    assert!(!verify(&g));
}

#[test]
fn solve_from_end_cursor() {
    let mut g = [[0u8; 9]; 9];
    assert!(solve(&mut g, 9, 8));
    assert_eq!(g, [[0u8; 9]; 9]);
    assert!(solve(&mut g, 0, 9));
    assert_eq!(g, [[0u8; 9]; 9]);
}

#[test]
fn solve_from_last_row() {
    let mut g = classic_solution();
    g[8] = [0; 9];
    assert!(solve(&mut g, 0, 8));
    assert_eq!(g, classic_solution());
}
