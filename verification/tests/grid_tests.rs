use hidden_words::grid::grid_from_lines;
use hidden_words::report::render_grid;

#[test]
fn lines_become_rows_of_characters() {
    let lines = vec!["AB".to_string(), "CD".to_string()];
    let grid = grid_from_lines(&lines);
    assert_eq!(grid, vec![vec!['A', 'B'], vec!['C', 'D']]);
}

#[test]
fn lines_are_kept_verbatim() {
    let lines = vec!["aB c".to_string()];
    let grid = grid_from_lines(&lines);
    assert_eq!(grid, vec![vec!['a', 'B', ' ', 'c']]);
}

#[test]
fn no_lines_make_an_empty_grid() {
    let lines: Vec<String> = Vec::new();
    let grid = grid_from_lines(&lines);
    assert!(grid.is_empty());
}

#[test]
fn rendered_grid_spaces_cells_and_breaks_rows() {
    let lines = vec!["AB".to_string(), "CD".to_string()];
    let grid = grid_from_lines(&lines);
    let out = render_grid(&grid);
    let expected: Vec<char> = "A B \nC D \n".chars().collect();
    assert_eq!(out, expected);
}
