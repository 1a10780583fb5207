use sudoku::grid::Grid;
use sudoku::solve::solve;
use sudoku::text::{format_field, parse_field, LoadError};
use sudoku::validate::verify;

const CLASSIC: &str = "53--7----\n6--195---\n-98----6-\n8---6---3\n4--8-3--1\n7---2---6\n-6----28-\n---419--5\n----8--79\n";

#[test]
fn parse_classic() {
    let g = parse_field(CLASSIC).unwrap();
    assert_eq!(g[0], [5, 3, 0, 0, 7, 0, 0, 0, 0]);
    assert_eq!(g[8], [0, 0, 0, 0, 8, 0, 0, 7, 9]);
}

#[test]
fn parse_without_final_newline_and_with_crlf() {
    let a = parse_field(CLASSIC).unwrap();
    let b = parse_field(CLASSIC.trim_end()).unwrap();
    let c = parse_field(&CLASSIC.replace('\n', "\r\n")).unwrap();
    assert_eq!(a, b);
    assert_eq!(a, c);
}

#[test]
fn parse_rejects_eight_lines() {
    let text: String = CLASSIC.lines().take(8).map(|l| format!("{}\n", l)).collect();
    assert_eq!(parse_field(&text), Err(LoadError::RowCount));
}

#[test]
fn parse_rejects_ten_lines() {
    let text = format!("{}---------\n", CLASSIC);
    assert_eq!(parse_field(&text), Err(LoadError::RowCount));
    assert_eq!(parse_field(""), Err(LoadError::RowCount));
}

#[test]
fn parse_rejects_blank_extra_line() {
    let text = format!("{}\n", CLASSIC);
    assert_eq!(parse_field(&text), Err(LoadError::RowCount));
}

#[test]
fn parse_rejects_line_of_ten() {
    let text = CLASSIC.replacen("53--7----", "53--7-----", 1);
    assert_eq!(parse_field(&text), Err(LoadError::ColumnCount));
}

#[test]
fn parse_rejects_short_line() {
    let text = CLASSIC.replacen("----8--79", "----8--7", 1);
    assert_eq!(parse_field(&text), Err(LoadError::ColumnCount));
}

#[test]
fn parse_rejects_bad_character() {
    let text = CLASSIC.replacen("53--7----", "53--x----", 1);
    assert_eq!(parse_field(&text), Err(LoadError::BadCharacter));
    let zero = CLASSIC.replacen("53--7----", "530-7----", 1);
    assert_eq!(parse_field(&zero), Err(LoadError::BadCharacter));
}

#[test]
fn parse_length_error_comes_before_character_error() {
    let text = CLASSIC.replacen("53--7----", "53--x----", 1).replacen("----8--79", "----8--7", 1);
    assert_eq!(parse_field(&text), Err(LoadError::ColumnCount));
}

#[test]
fn error_messages() {
    assert_eq!(LoadError::RowCount.message(), "Unexpected row size");
    assert_eq!(LoadError::ColumnCount.message(), "Unexpected column size");
    assert_eq!(LoadError::BadCharacter.message(), "Unexpected character");
}

#[test]
fn format_classic() {
    let g = parse_field(CLASSIC).unwrap();
    let expected = "53- -7- ---\n6-- 195 ---\n-98 --- -6-\n\n8-- -6- --3\n4-- 8-3 --1\n7-- -2- --6\n\n-6- --- 28-\n--- 419 --5\n--- -8- -79\n";
    assert_eq!(format_field(&g), expected);
}

#[test]
fn format_empty_board() {
    let g: Grid = [[0u8; 9]; 9];
    let line = "--- --- ---\n";
    let expected = format!("{l}{l}{l}\n{l}{l}{l}\n{l}{l}{l}", l = line);
    assert_eq!(format_field(&g), expected);
}

#[test]
fn load_solve_and_show_classic() {
    let mut g = parse_field(CLASSIC).unwrap();
    assert!(solve(&mut g, 0, 0));
    assert!(verify(&g));
    let shown = format_field(&g);
    assert_eq!(
        shown,
        "534 678 912\n672 195 348\n198 342 567\n\n859 761 423\n426 853 791\n713 924 856\n\n961 537 284\n287 419 635\n345 286 179\n"
    );
    assert!(!shown.contains('-'));
}
