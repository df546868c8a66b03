use csvit::csvi::{decode_csvi, encode_csvi, is_csvi_file, CsviError, CsviMetadata, ViewSettings};
use csvit::formatting::CellFormat;

#[test]
fn archive_round_trip_restores_text_and_metadata() {
    let mut meta = CsviMetadata::new();
    meta.formatting.set(2, 1, CellFormat::bold());
    meta.formatting
        .set(0, 0, CellFormat::with_bg([10, 20, 30, 255]));
    meta.column_names = vec!["name".to_string(), "qty, \"net\"".to_string()];
    meta.column_widths = vec![80, 400];
    meta.view_settings = ViewSettings {
        scroll_position: 42,
        selected_cell: Some((3, 1)),
        zoom_level: 125,
    };
    let text = "name,qty\nwidget,3\n\"a\nb\",7\n";

    let bytes = encode_csvi(text, &meta).unwrap();
    let (text2, meta2) = decode_csvi(&bytes).unwrap();

    assert_eq!(text2, text);
    assert_eq!(meta2.version, 1);
    assert!(meta2.formatting.get(2, 1).unwrap().bold);
    assert_eq!(
        meta2.formatting.get(0, 0).unwrap().bg_color,
        Some([10, 20, 30, 255])
    );
    assert!(meta2.formatting.get(9, 9).is_none());
    assert_eq!(meta2.column_names, meta.column_names);
    assert_eq!(meta2.column_widths, meta.column_widths);
    assert_eq!(meta2.view_settings.scroll_position, 42);
    assert_eq!(meta2.view_settings.selected_cell, Some((3, 1)));
    assert_eq!(meta2.view_settings.zoom_level, 125);
}

#[test]
fn archive_round_trip_with_empty_overlay() {
    let meta = CsviMetadata::new();
    let bytes = encode_csvi("", &meta).unwrap();
    let (text2, meta2) = decode_csvi(&bytes).unwrap();
    assert_eq!(text2, "");
    assert!(meta2.column_names.is_empty());
    assert!(meta2.column_widths.is_empty());
}

#[test]
fn unicode_column_names_survive() {
    let mut meta = CsviMetadata::new();
    meta.column_names = vec!["prix (\u{20ac})".to_string(), "\u{1F4C8} trend".to_string()];
    let bytes = encode_csvi("a\n1\n", &meta).unwrap();
    let (_, meta2) = decode_csvi(&bytes).unwrap();
    assert_eq!(meta2.column_names, meta.column_names);
}

#[test]
fn garbage_bytes_report_missing_data_entry() {
    let r = decode_csvi(&vec![1, 2, 3, 4]);
    assert_eq!(r.unwrap_err(), CsviError::MissingDataEntry);
}

#[test]
fn error_messages_are_nonempty() {
    assert!(!CsviError::ArchiveWrite.message().is_empty());
    assert!(!CsviError::MissingDataEntry.message().is_empty());
    assert!(!CsviError::MissingMetadataEntry.message().is_empty());
    assert!(!CsviError::InvalidData.message().is_empty());
    assert!(!CsviError::InvalidMetadata.message().is_empty());
}

#[test]
fn csvi_extension_detection() {
    assert!(is_csvi_file("table.csvi"));
    assert!(is_csvi_file("dir/table.CSVI"));
    assert!(is_csvi_file("a.b.csvi"));
    assert!(is_csvi_file("a..csvi"));
    assert!(!is_csvi_file("table.csv"));
    assert!(!is_csvi_file(".csvi"));
    assert!(!is_csvi_file("dir/.csvi"));
    assert!(!is_csvi_file("table.csvi.bak"));
    assert!(!is_csvi_file("dir.csvi/table"));
    assert!(!is_csvi_file("csvi"));
}
