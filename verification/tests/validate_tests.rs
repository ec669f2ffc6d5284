use hidden_words::grid::grid_from_lines;
use hidden_words::validate::{validate_grid, validate_word_list, GridError};

fn grid_of(lines: &[&str]) -> Vec<Vec<char>> {
    let owned: Vec<String> = lines.iter().map(|s| s.to_string()).collect();
    grid_from_lines(&owned)
}

#[test]
fn rectangular_alphabetic_grid_is_valid() {
    let grid = grid_of(&["ABC", "DEF", "GHI"]);
    assert_eq!(validate_grid(&grid), Ok(()));
}

#[test]
fn empty_grid_is_invalid() {
    let grid: Vec<Vec<char>> = Vec::new();
    assert_eq!(validate_grid(&grid), Err(GridError::Empty));
}

#[test]
fn empty_first_row_is_invalid() {
    let grid = grid_of(&["", "AB"]);
    assert_eq!(validate_grid(&grid), Err(GridError::EmptyRow));
}

#[test]
fn ragged_grid_reports_first_offending_row() {
    let grid = grid_of(&["AB", "AB", "A", "B"]);
    assert_eq!(
        validate_grid(&grid),
        Err(GridError::RaggedRow { row: 2, expected: 2, found: 1 })
    );
}

#[test]
fn non_alphabetic_cell_reports_first_offending_char() {
    let grid = grid_of(&["AB", "C4"]);
    assert_eq!(
        validate_grid(&grid),
        Err(GridError::NonAlphabetic { row: 1, col: 1, ch: '4' })
    );
}

#[test]
fn raggedness_is_reported_before_characters() {
    let grid = grid_of(&["A1", "B"]);
    assert_eq!(
        validate_grid(&grid),
        Err(GridError::RaggedRow { row: 1, expected: 2, found: 1 })
    );
}

#[test]
fn alphabetic_words_accepted_whatever_their_length() {
    let grid = grid_of(&["AB", "CD"]);
    let words = vec!["ABCDEFGHIJ".to_string(), "E".to_string()];
    let report = validate_word_list(&words, &grid);
    assert_eq!(report.first_invalid, None);
    assert_eq!(report.long_words, vec![0]);
}

#[test]
fn first_invalid_word_is_reported() {
    let grid = grid_of(&["AB", "CD"]);
    let words = vec!["AB".to_string(), "C3".to_string(), "DDDDD".to_string()];
    let report = validate_word_list(&words, &grid);
    assert_eq!(report.first_invalid, Some(1));
    assert_eq!(report.long_words, Vec::<usize>::new());
}

#[test]
fn word_filling_the_larger_dimension_is_not_long() {
    let grid = grid_of(&["ABC", "DEF"]);
    let words = vec!["ABC".to_string(), "WXYZ".to_string()];
    let report = validate_word_list(&words, &grid);
    assert_eq!(report.first_invalid, None);
    assert_eq!(report.long_words, vec![1]);
}
