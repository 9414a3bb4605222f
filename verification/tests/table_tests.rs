use doxx::models::CellDataType;
use doxx::models::TableCell;
use doxx::models::TableData;
use doxx::models::TextAlignment;
use doxx::table::detect_cell_data_type;
use doxx::table::default_alignment_for_type;
use doxx::table::appears_to_be_header;

#[test]
fn test_cell_data_types() {
    assert_eq!(detect_cell_data_type(""), CellDataType::Empty);
    assert_eq!(detect_cell_data_type("   "), CellDataType::Empty);
    assert_eq!(detect_cell_data_type("$100"), CellDataType::Currency);
    assert_eq!(detect_cell_data_type("\u{20AC}50"), CellDataType::Currency);
    assert_eq!(detect_cell_data_type("\u{00A3}75"), CellDataType::Currency);
    assert_eq!(detect_cell_data_type("15%"), CellDataType::Percentage);
    assert_eq!(detect_cell_data_type("true"), CellDataType::Boolean);
    assert_eq!(detect_cell_data_type("No"), CellDataType::Boolean);
    assert_eq!(detect_cell_data_type("y"), CellDataType::Boolean);
    assert_eq!(detect_cell_data_type("42"), CellDataType::Number);
    assert_eq!(detect_cell_data_type("1,234.5"), CellDataType::Number);
    assert_eq!(detect_cell_data_type("-3.25"), CellDataType::Number);
    assert_eq!(detect_cell_data_type("2024-01-15"), CellDataType::Date);
    assert_eq!(detect_cell_data_type("01/02/2024"), CellDataType::Date);
    assert_eq!(detect_cell_data_type("hello"), CellDataType::Text);
    assert_eq!(detect_cell_data_type("2024-01"), CellDataType::Text);
}

#[test]
fn test_default_alignments() {
    assert_eq!(
        default_alignment_for_type(CellDataType::Number),
        TextAlignment::Right
    );
    assert_eq!(
        default_alignment_for_type(CellDataType::Currency),
        TextAlignment::Right
    );
    assert_eq!(
        default_alignment_for_type(CellDataType::Percentage),
        TextAlignment::Right
    );
    assert_eq!(
        default_alignment_for_type(CellDataType::Boolean),
        TextAlignment::Center
    );
    assert_eq!(
        default_alignment_for_type(CellDataType::Text),
        TextAlignment::Left
    );
}

fn numeric_ratio_table(numeric: usize, total: usize) -> TableData {
    let headers = vec![TableCell::new("Amount".to_string())];
    let mut rows: Vec<Vec<TableCell>> = Vec::new();
    let mut i = 0;
    while i < total {
        let content = if i < numeric {
            format!("{}", i + 1)
        } else {
            format!("item {}", i + 1)
        };
        rows.push(vec![TableCell::new(content)]);
        i += 1;
    }
    TableData::new(headers, rows)
}

#[test]
fn test_alignment_above_threshold() {
    let t = numeric_ratio_table(71, 100);
    assert_eq!(t.metadata.column_alignments[0], TextAlignment::Right);
}

#[test]
fn test_alignment_at_threshold_stays_left() {
    let t = numeric_ratio_table(70, 100);
    assert_eq!(t.metadata.column_alignments[0], TextAlignment::Left);
}

#[test]
fn test_alignment_below_threshold() {
    let t = numeric_ratio_table(69, 100);
    assert_eq!(t.metadata.column_alignments[0], TextAlignment::Left);
}

#[test]
fn test_column_width_floor_and_grapheme_count() {
    let headers = vec![TableCell::new("A".to_string())];
    let rows = vec![vec![TableCell::new("x".to_string())]];
    let t = TableData::new(headers, rows);
    // Every width is floored at three.
    assert_eq!(t.metadata.column_widths[0], 3);

    // A combining accent counts as one displayed cluster, not two.
    let cell = TableCell::new("e\u{0301}xx\u{0301}".to_string());
    assert_eq!(cell.display_width(), 3);
}

#[test]
fn test_header_detection() {
    let header_row: Vec<String> = vec![
        "Name".to_string(),
        "Date".to_string(),
        "Amount".to_string(),
    ];
    assert!(appears_to_be_header(&header_row));

    let long: String = "this cell rambles on for a very long time and has far too many words to be a header row cell at all because headers are short".to_string();
    let data_row: Vec<String> = vec![long.clone(), long];
    assert!(!appears_to_be_header(&data_row));
}

#[test]
fn test_table_metadata_shape() {
    let headers = vec![
        TableCell::new("Name".to_string()),
        TableCell::new("Amount".to_string()),
    ];
    let rows = vec![
        vec![
            TableCell::new("Widget".to_string()),
            TableCell::new("12".to_string()),
        ],
        vec![
            TableCell::new("Gadget".to_string()),
            TableCell::new("34".to_string()),
        ],
    ];
    let t = TableData::new(headers, rows);
    assert_eq!(t.metadata.column_count, 2);
    assert_eq!(t.metadata.row_count, 2);
    assert!(t.metadata.has_headers);
    assert_eq!(t.metadata.column_widths.len(), 2);
    assert_eq!(t.metadata.column_alignments.len(), 2);
    assert!(t.metadata.column_widths.iter().all(|w| *w >= 3));
    assert_eq!(t.metadata.column_alignments[1], TextAlignment::Right);
}

#[test]
fn test_ragged_rows_widen_the_table() {
    let headers = vec![TableCell::new("Only".to_string())];
    let rows = vec![vec![
        TableCell::new("a".to_string()),
        TableCell::new("wide second column".to_string()),
    ]];
    let t = TableData::new(headers, rows);
    // The invariant sizes widths and alignments by the widest row.
    assert_eq!(t.metadata.column_widths.len(), 2);
    assert_eq!(t.metadata.column_alignments.len(), 2);
    assert_eq!(t.metadata.column_widths[1], 18);
    assert!(t.metadata.column_widths.iter().all(|w| *w >= 3));
}
