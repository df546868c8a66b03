use csvit::analysis::{numeric_values, ColumnAnalyzer, InferredType};

fn strings(vals: &[&str]) -> Vec<String> {
    vals.iter().map(|s| s.to_string()).collect()
}

#[test]
fn test_null_count() {
    let values = strings(&["1", "", "3", "null", "5"]);
    let profile = ColumnAnalyzer::analyze_column("WithNulls", 0, &values);

    assert_eq!(profile.null_count, 2);
    assert_eq!(profile.total_count, 5);
}

#[test]
fn integer_column_is_inferred() {
    let values = strings(&["1", "2", "3", "4", "5"]);
    let profile = ColumnAnalyzer::analyze_column("Numbers", 0, &values);
    assert_eq!(profile.data_type, Some(InferredType::Integer));
    assert_eq!(profile.unique_count, 5);
    assert_eq!(numeric_values(&values), strings(&["1", "2", "3", "4", "5"]));
}

#[test]
fn float_column_counts_integers_toward_floats() {
    let values = strings(&["1.5", "2", "3.25", "4e2", "nan"]);
    let profile = ColumnAnalyzer::analyze_column("F", 0, &values);
    assert_eq!(profile.data_type, Some(InferredType::Float));
}

#[test]
fn boolean_column() {
    let values = strings(&["true", "FALSE", "yes", "no", "TRUE"]);
    let profile = ColumnAnalyzer::analyze_column("B", 0, &values);
    assert_eq!(profile.data_type, Some(InferredType::Boolean));
}

#[test]
fn date_dominance_boundary_at_exactly_eighty_percent() {
    // Four of five non-null values parse as dates: exactly the eighty
    // percent threshold, which counts as dominant.
    let values = strings(&["2024-01-02", "2024/1/3", "1-2-3", "9/9/9", "plain"]);
    let profile = ColumnAnalyzer::analyze_column("D", 0, &values);
    assert_eq!(profile.data_type, Some(InferredType::Date));

    // Three of five is below the threshold; any plain text makes it Text.
    let values2 = strings(&["2024-01-02", "2024/1/3", "1-2-3", "word", "plain"]);
    let profile2 = ColumnAnalyzer::analyze_column("D2", 0, &values2);
    assert_eq!(profile2.data_type, Some(InferredType::Text));
}

#[test]
fn all_null_column_is_empty() {
    let values = strings(&["", "na", "N/A", "NULL"]);
    let profile = ColumnAnalyzer::analyze_column("E", 0, &values);
    assert_eq!(profile.data_type, Some(InferredType::Empty));
    assert_eq!(profile.null_count, 4);
    assert_eq!(profile.unique_count, 0);
}

#[test]
fn top_values_are_sorted_by_count() {
    let values = strings(&["b", "a", "a", "c", "a", "b"]);
    let profile = ColumnAnalyzer::analyze_column("T", 0, &values);
    assert_eq!(profile.unique_count, 3);
    assert_eq!(profile.top_values.len(), 3);
    assert_eq!(profile.top_values[0], ("a".to_string(), 3));
    assert_eq!(profile.top_values[1], ("b".to_string(), 2));
    assert_eq!(profile.top_values[2], ("c".to_string(), 1));
}

#[test]
fn top_values_keep_at_most_five() {
    let values = strings(&["a", "b", "c", "d", "e", "f", "g"]);
    let profile = ColumnAnalyzer::analyze_column("T", 0, &values);
    assert_eq!(profile.unique_count, 7);
    assert_eq!(profile.top_values.len(), 5);
}

#[test]
fn huge_integers_fall_back_to_float() {
    let values = strings(&["123456789012345678901234567890"]);
    let profile = ColumnAnalyzer::analyze_column("H", 0, &values);
    assert_eq!(profile.data_type, Some(InferredType::Float));
}

#[test]
fn type_names() {
    assert_eq!(InferredType::Integer.name(), "Integer");
    assert_eq!(InferredType::Float.name(), "Float");
    assert_eq!(InferredType::Boolean.name(), "Boolean");
    assert_eq!(InferredType::Date.name(), "Date");
    assert_eq!(InferredType::Text.name(), "Text");
    assert_eq!(InferredType::Empty.name(), "Empty");
    assert_eq!(InferredType::Mixed.name(), "Mixed");
}

#[test]
fn mixed_column_without_text() {
    // Integers, booleans and dates mixed with no plain text and no single
    // dominant kind.
    let values = strings(&["1", "2", "true", "false", "2024-01-02", "2023-05-06"]);
    let profile = ColumnAnalyzer::analyze_column("M", 0, &values);
    assert_eq!(profile.data_type, Some(InferredType::Mixed));
}
