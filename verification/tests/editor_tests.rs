use csvit::editor::{DeltaBuffer, EditCommand};

#[test]
fn test_undo_redo() {
    let mut buffer = DeltaBuffer::new();

    // Edit cell
    buffer.add_edit(0, 0, "old".to_string(), "new".to_string());
    assert_eq!(buffer.get_edit(0, 0), Some(&"new".to_string()));
    assert!(buffer.can_undo());
    assert!(!buffer.can_redo());

    // Undo
    buffer.undo();
    assert_eq!(buffer.get_edit(0, 0), None);
    assert!(!buffer.can_undo());
    assert!(buffer.can_redo());

    // Redo
    buffer.redo();
    assert_eq!(buffer.get_edit(0, 0), Some(&"new".to_string()));
    assert!(buffer.can_undo());
    assert!(!buffer.can_redo());
}

#[test]
fn test_new_edit_clears_redo() {
    let mut buffer = DeltaBuffer::new();

    buffer.add_edit(0, 0, "".to_string(), "first".to_string());
    buffer.undo();
    assert!(buffer.can_redo());

    // New edit should clear redo stack
    buffer.add_edit(0, 1, "".to_string(), "second".to_string());
    assert!(!buffer.can_redo());
}

#[test]
fn history_bound_evicts_oldest() {
    let mut buffer = DeltaBuffer::new();
    for i in 0..102usize {
        buffer.add_edit(i, 0, String::new(), format!("v{}", i));
    }
    assert_eq!(buffer.undo_count(), 100);
    // Undo everything that is still available.
    let mut undone = 0usize;
    while buffer.undo().is_some() {
        undone += 1;
    }
    assert_eq!(undone, 100);
    // The two oldest edits fell off the bottom and stay applied.
    assert_eq!(buffer.get_edit(0, 0), Some(&"v0".to_string()));
    assert_eq!(buffer.get_edit(1, 0), Some(&"v1".to_string()));
    assert_eq!(buffer.get_edit(2, 0), None);
}

#[test]
fn inverse_swaps_set_cell_values() {
    let cmd = EditCommand::SetCell {
        row: 3,
        col: 4,
        old_value: "before".to_string(),
        new_value: "after".to_string(),
    };
    match cmd.inverse() {
        EditCommand::SetCell {
            row,
            col,
            old_value,
            new_value,
        } => {
            assert_eq!((row, col), (3, 4));
            assert_eq!(old_value, "after");
            assert_eq!(new_value, "before");
        }
        _ => panic!("inverse changed the command kind"),
    }
}

#[test]
fn inverse_of_insert_row_is_delete_row() {
    let cmd = EditCommand::InsertRow {
        at: 2,
        data: vec!["x".to_string()],
    };
    match cmd.inverse() {
        EditCommand::DeleteRow { at, data } => {
            assert_eq!(at, 2);
            assert_eq!(data, vec!["x".to_string()]);
        }
        _ => panic!("inverse of insert-row must be delete-row"),
    }
}

#[test]
fn empty_value_removes_edit() {
    let mut buffer = DeltaBuffer::new();
    buffer.add_edit(0, 0, String::new(), "x".to_string());
    assert!(buffer.get_edit(0, 0).is_some());
    buffer.add_edit(0, 0, "x".to_string(), String::new());
    assert_eq!(buffer.get_edit(0, 0), None);
    assert!(buffer.is_dirty());
    buffer.mark_saved();
    assert!(!buffer.is_dirty());
    buffer.clear();
    assert_eq!(buffer.undo_count(), 0);
    assert_eq!(buffer.redo_count(), 0);
}
