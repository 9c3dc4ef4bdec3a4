use breach_solver::types::PuzzleGrid;

#[test]
fn grid() {
    let grid = PuzzleGrid::from_cells(
        4,
        3,
        vec![
            "0", "1", "2",
            "3", "4", "5",
            "6", "7", "8",
            "9", "10", "11",
        ],
    );

    assert_eq!(grid.row(1), ["3", "4", "5"]);
    assert_eq!(grid.col(1), ["1", "4", "7", "10"]);
    assert_eq!(grid.get_cell(2, 1), "7");
}

#[test]
fn new_grid_is_blank() {
    let grid = PuzzleGrid::new(2, 3);
    assert_eq!(grid.rows, 2);
    assert_eq!(grid.cols, 3);
    assert_eq!(grid.cells, vec![""; 6]);
    assert!(grid.is_well_formed());
    let none = PuzzleGrid::new(0, 5);
    assert!(none.cells.is_empty());
}

#[test]
fn set_cell_changes_one_cell() {
    let mut grid = PuzzleGrid::from_cells(2, 3, vec!["a", "b", "c", "d", "e", "f"]);
    grid.set_cell(1, 2, "Z");
    assert_eq!(grid.cells, vec!["a", "b", "c", "d", "e", "Z"]);
    grid.set_cell(0, 1, "Y");
    assert_eq!(grid.cells, vec!["a", "Y", "c", "d", "e", "Z"]);
    assert_eq!(grid.get_cell(0, 1), "Y");
    assert_eq!(grid.cell_index(1, 0), 3);
}

#[test]
fn rows_and_columns_of_a_wide_grid() {
    let grid = PuzzleGrid::from_cells(2, 3, vec!["a", "b", "c", "d", "e", "f"]);
    assert_eq!(grid.row(0), ["a", "b", "c"]);
    assert_eq!(grid.row(1), ["d", "e", "f"]);
    assert_eq!(grid.col(0), ["a", "d"]);
    assert_eq!(grid.col(2), ["c", "f"]);
}

#[test]
fn from_cells_form_depends_on_the_count() {
    assert!(PuzzleGrid::from_cells(2, 2, vec!["a", "b", "c", "d"]).is_well_formed());
    assert!(!PuzzleGrid::from_cells(2, 2, vec!["a", "b", "c"]).is_well_formed());
    assert!(!PuzzleGrid::from_cells(2, 2, vec!["a", "b", "c", "d", "e"]).is_well_formed());
}

#[test]
fn grid_is_written_as_a_table() {
    let grid = PuzzleGrid::from_cells(2, 2, vec!["1", "", "10", "BD55X7"]);
    let rule = format!("{}\n", "\u{2014}".repeat(13));
    let expected = format!(
        "{rule}|  1  |     |\n{rule}| 10  |BD55X7|\n{rule}",
        rule = rule
    );
    assert_eq!(grid.to_string(), expected);
}

#[test]
fn grid_without_rows_is_two_rules() {
    let grid = PuzzleGrid::from_cells(0, 0, vec![]);
    assert_eq!(grid.to_string(), "\u{2014}\n\u{2014}\n");
    let line = PuzzleGrid::from_cells(1, 1, vec!["7A"]);
    let rule = "\u{2014}".repeat(7);
    assert_eq!(line.to_string(), format!("{rule}\n| 7A  |\n{rule}\n", rule = rule));
}
