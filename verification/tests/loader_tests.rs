use csvit::loader::CsvLoader;
use csvit::paged_reader::PagedReader;
use std::sync::Arc;

#[test]
fn test_indexer_simple() {
    let loader = CsvLoader::from_bytes(b"a,b,c\n1,2,3\n4,5,6".to_vec());
    assert_eq!(loader.total_records(), 3);

    // Line 0: "a,b,c\n"
    let line0 = String::from_utf8(loader.get_record_line(0).unwrap()).unwrap();
    assert_eq!(line0, "a,b,c\n");

    // Line 2: "4,5,6" (no newline at EOF)
    let line2 = String::from_utf8(loader.get_record_line(2).unwrap()).unwrap();
    assert_eq!(line2, "4,5,6");
}

#[test]
fn test_indexer_quoted_newlines() {
    let loader = CsvLoader::from_bytes(b"a,b,\"c\nd\"\n1,2,3".to_vec());
    assert_eq!(loader.total_records(), 2);

    // Line 0: "a,b,\"c\nd\"\n"
    let line0 = String::from_utf8(loader.get_record_line(0).unwrap()).unwrap();
    assert_eq!(line0, "a,b,\"c\nd\"\n");

    // Line 1: "1,2,3"
    let line1 = String::from_utf8(loader.get_record_line(1).unwrap()).unwrap();
    assert_eq!(line1, "1,2,3");
}

#[test]
fn spans_reconstruct_the_file() {
    let data = b"a,b\n\"x\ny\",2\nlast".to_vec();
    let loader = CsvLoader::from_bytes(data.clone());
    let mut rebuilt: Vec<u8> = Vec::new();
    for i in 0..loader.total_records() {
        rebuilt.extend_from_slice(&loader.get_record_line(i).unwrap());
    }
    assert_eq!(rebuilt, data);
}

#[test]
fn empty_buffer_has_no_records() {
    let loader = CsvLoader::from_bytes(Vec::new());
    assert_eq!(loader.total_records(), 0);
    assert!(loader.get_record_line(0).is_none());
    assert_eq!(loader.num_columns(), 0);
}

#[test]
fn synthetic_store_reports_declared_shape() {
    let loader = CsvLoader::empty(7, 4);
    assert_eq!(loader.total_records(), 7);
    assert_eq!(loader.num_columns(), 4);
    assert!(loader.get_record_line(0).is_none());
}

#[test]
fn num_columns_respects_quoting() {
    let loader = CsvLoader::from_bytes(b"a,\"b,c\",d\n1,2,3".to_vec());
    assert_eq!(loader.num_columns(), 3);
}

#[test]
fn column_widths_are_clamped_pixels() {
    // Short fields floor at 50 px (min length 10 -> 80 px), long fields cap
    // at 400 px.
    let long = "x".repeat(120);
    let text = format!("ab,{}\ncd,{}", long, long);
    let loader = CsvLoader::from_bytes(text.into_bytes());
    let widths = loader.estimate_column_widths();
    assert_eq!(widths.len(), 2);
    assert_eq!(widths[0], 80);
    assert_eq!(widths[1], 400);
}

#[test]
fn paged_reader_pages_and_stops_early() {
    let loader = Arc::new(CsvLoader::from_bytes(b"a\nb\nc".to_vec()));
    let reader = PagedReader::new(loader);
    assert_eq!(reader.get_rows(0, 2), vec!["a\n", "b\n"]);
    assert_eq!(reader.get_rows(1, 10), vec!["b\n", "c"]);
    assert_eq!(reader.get_rows(5, 3), Vec::<String>::new());
    let empty = PagedReader::empty();
    assert_eq!(empty.get_rows(0, 5), Vec::<String>::new());
}

#[test]
fn paged_reader_decodes_lossily() {
    let loader = Arc::new(CsvLoader::from_bytes(vec![b'a', 0xFF, b'b']));
    let reader = PagedReader::new(loader);
    let rows = reader.get_rows(0, 1);
    assert_eq!(rows.len(), 1);
    assert_eq!(rows[0], "a\u{FFFD}b");
}
