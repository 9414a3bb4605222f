use doxx::models::Document;
use doxx::models::DocumentElement;
use doxx::models::DocumentMetadata;
use doxx::models::FormattedRun;
use doxx::models::ImageOptions;
use doxx::models::TableCell;
use doxx::models::TableData;
use doxx::models::TextFormatting;
use doxx::query::search_document;
use doxx::query::generate_outline;

fn para(text: &str) -> DocumentElement {
    DocumentElement::Paragraph {
        runs: vec![FormattedRun {
            text: text.to_string(),
            formatting: TextFormatting::default(),
        }],
    }
}

fn sample_document() -> Document {
    let table = TableData::new(
        vec![
            TableCell::new("Quarter".to_string()),
            TableCell::new("Revenue".to_string()),
        ],
        vec![vec![
            TableCell::new("Q4".to_string()),
            TableCell::new("$1,000".to_string()),
        ]],
    );
    Document {
        title: "report".to_string(),
        metadata: DocumentMetadata {
            file_path: "report.docx".to_string(),
            file_size: 0,
            word_count: 12,
            page_count: 1,
            created: None,
            modified: None,
            author: None,
        },
        elements: vec![
            DocumentElement::Heading {
                level: 1,
                text: "Executive Summary".to_string(),
                number: Some("1".to_string()),
            },
            para("Revenue grew this quarter."),
            DocumentElement::Table { table },
            DocumentElement::PageBreak,
        ],
        image_options: ImageOptions::default(),
    }
}

#[test]
fn test_empty_search_returns_no_results() {
    let doc = sample_document();
    assert!(search_document(&doc, "").is_empty());
    assert!(search_document(&doc, "   ").is_empty());
}

#[test]
fn test_case_insensitive_search() {
    let doc = sample_document();
    let lower = search_document(&doc, "revenue");
    let upper = search_document(&doc, "REVENUE");
    let mixed = search_document(&doc, "Revenue");
    assert_eq!(lower.len(), upper.len());
    assert_eq!(lower.len(), mixed.len());
    assert!(!lower.is_empty());
}

#[test]
fn test_search_result_positions() {
    let doc = sample_document();
    let results = search_document(&doc, "revenue");
    assert!(!results.is_empty());
    for r in &results {
        assert!(r.start_pos < r.end_pos);
        assert_eq!(r.end_pos - r.start_pos, 7);
        assert!(r.element_index < doc.elements.len());
    }
}

#[test]
fn test_search_finds_table_and_paragraph() {
    let doc = sample_document();
    let results = search_document(&doc, "revenue");
    // One hit in the paragraph, one in the table header.
    assert_eq!(results.len(), 2);
    assert_eq!(results[0].element_index, 1);
    assert_eq!(results[1].element_index, 2);
}

#[test]
fn test_search_heading_position() {
    let doc = sample_document();
    let results = search_document(&doc, "summary");
    assert_eq!(results.len(), 1);
    assert_eq!(results[0].element_index, 0);
    assert_eq!(results[0].start_pos, 10);
    assert_eq!(results[0].end_pos, 17);
}

#[test]
fn test_outline_includes_numbers() {
    let doc = sample_document();
    let outline = generate_outline(&doc);
    assert_eq!(outline.len(), 1);
    assert_eq!(outline[0].title, "1 Executive Summary");
    assert_eq!(outline[0].level, 1);
    assert_eq!(outline[0].element_index, 0);
}

#[test]
fn test_outline_without_number() {
    let mut doc = sample_document();
    doc.elements.push(DocumentElement::Heading {
        level: 2,
        text: "Appendix".to_string(),
        number: None,
    });
    let outline = generate_outline(&doc);
    assert_eq!(outline.len(), 2);
    assert_eq!(outline[1].title, "Appendix");
    assert_eq!(outline[1].element_index, 4);
}

#[test]
fn test_search_folds_case_beyond_ascii() {
    let mut doc = sample_document();
    doc.elements.push(para("Paris caf\u{00E9} notes"));
    let upper = search_document(&doc, "CAF\u{00C9}");
    let lower = search_document(&doc, "caf\u{00E9}");
    assert_eq!(upper.len(), 1);
    assert_eq!(upper.len(), lower.len());
    assert_eq!(upper[0].start_pos, lower[0].start_pos);
    assert_eq!(upper[0].end_pos - upper[0].start_pos, 4);
}
