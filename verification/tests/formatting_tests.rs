use csvit::formatting::{CellFormat, FormatMap};

#[test]
fn set_get_remove_clear() {
    let mut fm = FormatMap::new();
    assert!(fm.is_empty());
    fm.set(1, 2, CellFormat::bold());
    assert!(!fm.is_empty());
    let got = fm.get(1, 2).unwrap();
    assert!(got.bold);
    assert!(!got.italic);
    assert_eq!(got.bg_color, None);
    fm.remove(1, 2);
    assert!(fm.get(1, 2).is_none());
    fm.set(0, 0, CellFormat::with_bg([1, 2, 3, 4]));
    fm.clear();
    assert!(fm.is_empty());
}

#[test]
fn constructors_set_single_attributes() {
    let bg = CellFormat::with_bg([9, 8, 7, 6]);
    assert_eq!(bg.bg_color, Some([9, 8, 7, 6]));
    assert_eq!(bg.text_color, None);
    let tc = CellFormat::with_text_color([1, 1, 1, 1]);
    assert_eq!(tc.text_color, Some([1, 1, 1, 1]));
    assert!(!tc.bold);
    let d = CellFormat::default();
    assert!(!d.bold && !d.italic && d.bg_color.is_none() && d.text_color.is_none());
}

#[test]
fn deleting_a_row_moves_later_entries_up() {
    // Formatting at row 5; deleting row 2 moves it to row 4.
    let mut fm = FormatMap::new();
    fm.set(5, 0, CellFormat::bold());
    fm.shift_rows_up(2);
    assert!(fm.get(5, 0).is_none());
    assert!(fm.get(4, 0).unwrap().bold);
}

#[test]
fn deleting_the_formatted_row_drops_the_entry() {
    let mut fm = FormatMap::new();
    fm.set(5, 0, CellFormat::bold());
    fm.shift_rows_up(5);
    assert!(fm.is_empty());
}

#[test]
fn inserting_a_row_moves_entries_down() {
    let mut fm = FormatMap::new();
    fm.set(3, 1, CellFormat::bold());
    fm.set(1, 1, CellFormat::with_bg([0, 0, 0, 0]));
    fm.shift_rows_down(2);
    assert!(fm.get(4, 1).unwrap().bold);
    assert!(fm.get(1, 1).unwrap().bg_color.is_some());
    assert!(fm.get(3, 1).is_none());
}

#[test]
fn column_shifts_mirror_row_shifts() {
    let mut fm = FormatMap::new();
    fm.set(0, 5, CellFormat::bold());
    fm.shift_cols_left(2);
    assert!(fm.get(0, 4).unwrap().bold);
    fm.shift_cols_right(0);
    assert!(fm.get(0, 5).unwrap().bold);
    fm.shift_cols_left(5);
    assert!(fm.is_empty());
}
