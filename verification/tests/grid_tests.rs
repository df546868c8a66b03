use csvit::grid::EditableGrid;

fn cell(g: &EditableGrid, r: usize, c: usize) -> String {
    g.get_cell(r, c).unwrap().clone()
}

#[test]
fn new_grid_has_positional_headers_and_empty_cells() {
    let g = EditableGrid::new(3, 2);
    assert_eq!(g.num_cols(), 3);
    assert_eq!(g.num_rows(), 2);
    assert_eq!(g.get_header(0).unwrap(), "Column 1");
    assert_eq!(g.get_header(2).unwrap(), "Column 3");
    assert_eq!(cell(&g, 1, 2), "");
    assert!(!g.is_modified());
}

#[test]
fn from_csv_parses_headers_and_rows() {
    let g = EditableGrid::from_csv("a,b,c\n1,2,3\n4,5,6");
    assert_eq!(g.num_cols(), 3);
    assert_eq!(g.num_rows(), 2);
    assert_eq!(g.get_header(1).unwrap(), "b");
    assert_eq!(cell(&g, 0, 0), "1");
    assert_eq!(cell(&g, 1, 2), "6");
}

#[test]
fn from_csv_pads_short_rows() {
    let g = EditableGrid::from_csv("a,b,c\n1,2");
    assert_eq!(g.num_cols(), 3);
    assert_eq!(cell(&g, 0, 2), "");
}

#[test]
fn to_csv_round_trips_and_quotes() {
    let g = EditableGrid::from_csv("a,b\n1,2\n");
    assert_eq!(g.to_csv(), "a,b\n1,2\n");

    let mut g2 = EditableGrid::new(2, 1);
    g2.set_cell(0, 0, "x,y".to_string());
    g2.set_cell(0, 1, "he said \"hi\"".to_string());
    assert_eq!(
        g2.to_csv(),
        "Column 1,Column 2\n\"x,y\",\"he said \"\"hi\"\"\"\n"
    );
}

#[test]
fn undo_restores_state_before_edit_and_redo_after() {
    let mut g = EditableGrid::from_csv("a,b\n1,2\n3,4");
    g.set_cell(0, 1, "X".to_string());
    assert_eq!(cell(&g, 0, 1), "X");
    assert!(g.undo());
    assert_eq!(cell(&g, 0, 1), "2");
    assert_eq!(g.num_rows(), 2);
    assert_eq!(g.num_cols(), 2);
    assert!(g.redo());
    assert_eq!(cell(&g, 0, 1), "X");
}

#[test]
fn delete_column_undo_restores_every_cell() {
    let mut g = EditableGrid::from_csv("a,b,c\n1,2,3\n4,5,6");
    g.delete_column(1);
    assert_eq!(g.num_cols(), 2);
    assert_eq!(cell(&g, 0, 1), "3");
    assert!(g.undo());
    assert_eq!(g.num_cols(), 3);
    assert_eq!(g.get_header(1).unwrap(), "b");
    assert_eq!(cell(&g, 0, 1), "2");
    assert_eq!(cell(&g, 1, 1), "5");
    assert_eq!(cell(&g, 0, 0), "1");
    assert_eq!(cell(&g, 1, 2), "6");
}

#[test]
fn delete_row_undo_restores_content() {
    let mut g = EditableGrid::from_csv("a,b\n1,2\n3,4");
    g.delete_row(0);
    assert_eq!(g.num_rows(), 1);
    assert_eq!(cell(&g, 0, 0), "3");
    assert!(g.undo());
    assert_eq!(g.num_rows(), 2);
    assert_eq!(cell(&g, 0, 0), "1");
    assert_eq!(cell(&g, 0, 1), "2");
}

#[test]
fn new_edit_after_undo_clears_redo() {
    let mut g = EditableGrid::from_csv("a\n1");
    g.set_cell(0, 0, "x".to_string());
    assert!(g.undo());
    assert!(g.can_redo());
    g.set_cell(0, 0, "y".to_string());
    assert!(!g.can_redo());
    assert!(!g.redo());
}

#[test]
fn history_never_exceeds_bound() {
    let mut g = EditableGrid::from_csv("a\n1");
    for i in 0..150usize {
        g.set_cell(0, 0, format!("v{}", i));
    }
    assert_eq!(g.undo_count(), 100);
    let mut undone = 0usize;
    while g.undo() {
        undone += 1;
    }
    assert_eq!(undone, 100);
    // The evicted oldest edits cannot be undone: the cell keeps the value of
    // the 50th edit instead of the text the grid started with.
    assert_eq!(cell(&g, 0, 0), "v49");
}

#[test]
fn add_row_and_column_positions() {
    let mut g = EditableGrid::from_csv("a,b\n1,2\n3,4");
    g.add_row(Some(0));
    assert_eq!(g.num_rows(), 3);
    assert_eq!(cell(&g, 1, 0), "");
    assert_eq!(cell(&g, 2, 0), "3");
    g.add_column(None);
    assert_eq!(g.num_cols(), 3);
    assert_eq!(g.get_header(2).unwrap(), "Column 3");
    assert_eq!(cell(&g, 0, 2), "");
    assert!(g.is_modified());
    g.mark_saved();
    assert!(!g.is_modified());
}

#[test]
fn out_of_range_operations_are_no_ops() {
    let mut g = EditableGrid::from_csv("a\n1");
    g.set_cell(5, 0, "x".to_string());
    g.set_header(7, "h".to_string());
    g.delete_row(9);
    g.delete_column(9);
    assert_eq!(g.to_csv(), "a\n1\n");
    assert!(!g.can_undo());
    assert!(g.get_cell(5, 0).is_none());
    assert!(g.get_header(7).is_none());
}

#[test]
fn set_header_undo() {
    let mut g = EditableGrid::from_csv("a,b\n1,2");
    g.set_header(0, "z".to_string());
    assert_eq!(g.get_header(0).unwrap(), "z");
    assert!(g.undo());
    assert_eq!(g.get_header(0).unwrap(), "a");
}
