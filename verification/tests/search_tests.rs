use hidden_words::grid::grid_from_lines;
use hidden_words::search::{search_all_words, search_word};
use hidden_words::validate::{validate_grid, validate_word_list};

fn grid_of(lines: &[&str]) -> Vec<Vec<char>> {
    let owned: Vec<String> = lines.iter().map(|s| s.to_string()).collect();
    grid_from_lines(&owned)
}

#[test]
fn round_trip_row_match() {
    let grid = grid_of(&["HELLO", "OLLEH"]);
    let r = search_word(&grid, "HELLO");
    assert_eq!(r, Some(((0, 0), (0, 4))));
}

#[test]
fn diagonal_down_right() {
    let grid = grid_of(&["ABCD", "EFGH", "IJKL", "MNOP"]);
    let r = search_word(&grid, "AFKP");
    assert_eq!(r, Some(((0, 0), (3, 3))));
}

#[test]
fn word_absent() {
    let grid = grid_of(&["AAAA", "AAAA"]);
    let r = search_word(&grid, "B");
    assert_eq!(r, None);
}

#[test]
fn boundary_word_fills_row() {
    let grid = grid_of(&["ABC", "DEF"]);
    let r = search_word(&grid, "ABC");
    assert_eq!(r, Some(((0, 0), (0, 2))));
}

#[test]
fn boundary_word_fills_column() {
    let grid = grid_of(&["ABC", "DEF"]);
    let r = search_word(&grid, "AD");
    assert_eq!(r, Some(((0, 0), (1, 0))));
}

#[test]
fn boundary_word_one_too_long() {
    let grid = grid_of(&["AAAA", "AAAA"]);
    let r = search_word(&grid, "AAAAA");
    assert_eq!(r, None);
}

#[test]
fn single_char_at_origin() {
    let grid = grid_of(&["XY", "ZW"]);
    let r = search_word(&grid, "X");
    assert_eq!(r, Some(((0, 0), (0, 0))));
}

#[test]
fn empty_word_matches_origin() {
    let grid = grid_of(&["AB"]);
    let r = search_word(&grid, "");
    assert_eq!(r, Some(((0, 0), (0, 0))));
}

#[test]
fn repeated_search_same_result() {
    let grid = grid_of(&["HELLO", "OLLEH"]);
    let first = search_word(&grid, "LE");
    let second = search_word(&grid, "LE");
    assert_eq!(first, second);
    assert_eq!(first, Some(((0, 2), (0, 1))));
}

#[test]
fn leftward_match() {
    let grid = grid_of(&["OLLEH"]);
    let r = search_word(&grid, "HELLO");
    assert_eq!(r, Some(((0, 4), (0, 0))));
}

#[test]
fn upward_match() {
    let grid = grid_of(&["O", "L", "L", "E", "H"]);
    let r = search_word(&grid, "HELLO");
    assert_eq!(r, Some(((4, 0), (0, 0))));
}

#[test]
fn up_left_diagonal_match() {
    let grid = grid_of(&["ABCD", "EFGH", "IJKL", "MNOP"]);
    let r = search_word(&grid, "PKFA");
    assert_eq!(r, Some(((3, 3), (0, 0))));
}

#[test]
fn down_left_diagonal_match() {
    let grid = grid_of(&["XD", "CX"]);
    let r = search_word(&grid, "DC");
    assert_eq!(r, Some(((0, 1), (1, 0))));
}

#[test]
fn first_cell_in_scan_order_wins() {
    let grid = grid_of(&["ABA"]);
    let r = search_word(&grid, "AB");
    assert_eq!(r, Some(((0, 0), (0, 1))));
}

#[test]
fn first_direction_in_scan_order_wins() {
    // "AB" lies both rightward and downward from (0, 0); right is tried first.
    let grid = grid_of(&["AB", "BX"]);
    let r = search_word(&grid, "AB");
    assert_eq!(r, Some(((0, 0), (0, 1))));
}

#[test]
fn validated_grid_is_searchable() {
    let grid = grid_of(&["ABCD", "EFGH", "IJKL", "MNOP"]);
    assert_eq!(validate_grid(&grid), Ok(()));
    let words = vec!["AFKP".to_string(), "DGJM".to_string(), "ABCDE".to_string()];
    let report = validate_word_list(&words, &grid);
    assert_eq!(report.first_invalid, None);
    assert_eq!(report.long_words, vec![2]);
    let results = search_all_words(&grid, &words);
    assert_eq!(results[0], Some(((0, 0), (3, 3))));
    assert_eq!(results[1], Some(((0, 3), (3, 0))));
    assert_eq!(results[2], None);
}

#[test]
fn all_words_reported_in_order() {
    let grid = grid_of(&["HELLO", "OLLEH"]);
    let words = vec!["HELLO".to_string(), "QQQ".to_string(), "HO".to_string()];
    let results = search_all_words(&grid, &words);
    assert_eq!(results.len(), 3);
    assert_eq!(results[0], Some(((0, 0), (0, 4))));
    assert_eq!(results[1], None);
    assert_eq!(results[2], Some(((0, 0), (1, 0))));
}
