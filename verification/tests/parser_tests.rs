use csvit::grid::EditableGrid;
use csvit::parser::{split_lines, CsvParser};

#[test]
fn test_parse_simple() {
    let line = "a,b,c";
    let fields = CsvParser::parse_line(line);
    assert_eq!(fields, vec!["a", "b", "c"]);
}

#[test]
fn test_parse_quotes() {
    let line = "a,\"b,c\",d";
    let fields = CsvParser::parse_line(line);
    assert_eq!(fields, vec!["a", "b,c", "d"]);
}

#[test]
fn parse_line_empty_input_gives_no_fields() {
    assert_eq!(CsvParser::parse_line(""), Vec::<String>::new());
}

#[test]
fn parse_line_keeps_whitespace() {
    assert_eq!(CsvParser::parse_line(" a , b "), vec![" a ", " b "]);
}

#[test]
fn doubled_quote_is_literal() {
    assert_eq!(
        CsvParser::parse_line("\"he said \"\"hi\"\"\",x"),
        vec!["he said \"hi\"", "x"]
    );
}

#[test]
fn unterminated_quote_is_tolerated() {
    assert_eq!(CsvParser::parse_line("\"abc,def"), vec!["abc,def"]);
}

#[test]
fn grid_row_parser_trims_fields() {
    assert_eq!(
        EditableGrid::parse_csv_row(" a , \"b\" ,c "),
        vec!["a", "b", "c"]
    );
}

#[test]
fn split_lines_handles_crlf_and_final_newline() {
    let lines = split_lines("a\r\nb\nc\n");
    assert_eq!(lines, vec!["a", "b", "c"]);
    let lines2 = split_lines("a\n\nb");
    assert_eq!(lines2, vec!["a", "", "b"]);
    assert_eq!(split_lines(""), Vec::<String>::new());
}
