use doxx::models::DocumentElement;
use doxx::models::ImageOptions;
use doxx::raw::RawDocChild;
use doxx::raw::RawNumbering;
use doxx::raw::RawParaChild;
use doxx::raw::RawParagraph;
use doxx::raw::RawRun;
use doxx::raw::RawRunChild;
use doxx::models::TextFormatting;
use doxx::reconstruct::build_document;
use doxx::reconstruct::merge_display_equations;
use doxx::reconstruct::DisplayGroup;
use doxx::xmlscan::extract_equations_from_xml;
use doxx::xmlscan::extract_inline_equation_positions;

fn raw_para(style: Option<&str>, text: &str) -> RawDocChild {
    RawDocChild::Paragraph(RawParagraph {
        style: style.map(|s| s.to_string()),
        numbering: None,
        children: vec![RawParaChild::Run(RawRun {
            children: vec![RawRunChild::Text(text.to_string())],
            formatting: TextFormatting::default(),
        })],
    })
}

fn numbered_para(num_id: i32, level: u8, text: &str) -> RawDocChild {
    RawDocChild::Paragraph(RawParagraph {
        style: None,
        numbering: Some(RawNumbering {
            num_id: Some(num_id),
            level,
        }),
        children: vec![RawParaChild::Run(RawRun {
            children: vec![RawRunChild::Text(text.to_string())],
            formatting: TextFormatting::default(),
        })],
    })
}

#[test]
fn test_build_document_basics() {
    let children = vec![
        raw_para(Some("Heading1"), "1. Introduction"),
        raw_para(None, "Some body text with five words."),
    ];
    let doc = build_document(
        &children,
        &Vec::new(),
        &Vec::new(),
        "sample".to_string(),
        "sample.docx".to_string(),
        123,
        &Vec::new(),
        ImageOptions::default(),
    );
    assert_eq!(doc.title, "sample");
    assert_eq!(doc.metadata.file_path, "sample.docx");
    assert_eq!(doc.metadata.file_size, 123);
    assert_eq!(doc.elements.len(), 2);
    match &doc.elements[0] {
        DocumentElement::Heading { level, text, number } => {
            assert_eq!(*level, 1);
            assert_eq!(text, "Introduction");
            assert_eq!(number.as_deref(), Some("1"));
        }
        _ => panic!("expected a heading"),
    }
    assert_eq!(doc.metadata.word_count, 8);
    assert_eq!(doc.metadata.page_count, 1);
}

#[test]
fn test_build_document_word_list() {
    let children = vec![numbered_para(1, 0, "first item"), numbered_para(1, 0, "second item")];
    let doc = build_document(
        &children,
        &Vec::new(),
        &Vec::new(),
        "lists".to_string(),
        "lists.docx".to_string(),
        1,
        &Vec::new(),
        ImageOptions::default(),
    );
    assert_eq!(doc.elements.len(), 2);
    match &doc.elements[0] {
        DocumentElement::Paragraph { runs } => {
            // The marker is stripped; the sequential number stays.
            assert_eq!(runs[0].text, "1. ");
            assert_eq!(runs[1].text, "first item");
        }
        _ => panic!("expected a paragraph"),
    }
    match &doc.elements[1] {
        DocumentElement::Paragraph { runs } => {
            assert_eq!(runs[0].text, "2. ");
        }
        _ => panic!("expected a paragraph"),
    }
}

fn eq_elem(latex: &str) -> DocumentElement {
    DocumentElement::Equation {
        latex: latex.to_string(),
        fallback: latex.to_string(),
    }
}

fn plain_para(text: &str) -> DocumentElement {
    DocumentElement::Paragraph {
        runs: vec![doxx::models::FormattedRun {
            text: text.to_string(),
            formatting: TextFormatting::default(),
        }],
    }
}

#[test]
fn test_merge_keeps_document_order() {
    let elements = vec![plain_para("first"), plain_para("second"), plain_para("third")];
    let groups = vec![
        DisplayGroup {
            index: 1,
            equations: vec![eq_elem("a")],
        },
        DisplayGroup {
            index: 2,
            equations: vec![eq_elem("b")],
        },
    ];
    let merged = merge_display_equations(elements, groups);
    // The paragraphs keep their relative order; the equations land before
    // the paragraph that follows their index.
    let texts: Vec<String> = merged
        .iter()
        .map(|e| match e {
            DocumentElement::Paragraph { runs } => runs[0].text.clone(),
            DocumentElement::Equation { latex, .. } => format!("${}$", latex),
            _ => String::new(),
        })
        .collect();
    assert_eq!(texts, vec!["first", "$a$", "second", "$b$", "third"]);
}

#[test]
fn test_merge_appends_trailing_equations() {
    let elements = vec![plain_para("only")];
    let groups = vec![DisplayGroup {
        index: 9,
        equations: vec![eq_elem("tail")],
    }];
    let merged = merge_display_equations(elements, groups);
    assert_eq!(merged.len(), 2);
    assert!(matches!(&merged[1], DocumentElement::Equation { .. }));
}

#[test]
fn test_xml_scan_positions_and_kinds() {
    let xml = "<w:document><w:p><w:r><w:t>before</w:t></w:r>\
<m:oMath><m:r><m:t>x</m:t></m:r></m:oMath>\
<w:r><w:t>after</w:t></w:r></w:p>\
<w:p><m:oMathPara><m:oMath><m:r><m:t>y</m:t></m:r></m:oMath></m:oMathPara></w:p>\
</w:document>";
    let eqs = extract_equations_from_xml(xml);
    assert_eq!(eqs.len(), 2);
    assert!(eqs[0].is_inline);
    assert_eq!(eqs[0].paragraph_index, 1);
    assert_eq!(eqs[0].latex, "x");
    assert!(!eqs[1].is_inline);
    assert_eq!(eqs[1].paragraph_index, 2);

    let inline = extract_inline_equation_positions(xml);
    // The display-only paragraph records no inline contents.
    assert_eq!(inline.len(), 1);
    assert_eq!(inline[0].index, 1);
    assert_eq!(inline[0].contents.len(), 3);
}

#[test]
fn test_xml_scan_unescapes_text() {
    let xml = "<w:p><w:r><w:t>a &amp; b &lt;c&gt;</w:t></w:r></w:p>";
    let inline = extract_inline_equation_positions(xml);
    assert_eq!(inline.len(), 1);
    match &inline[0].contents[0] {
        doxx::reconstruct::ParagraphContent::Text(t) => {
            assert_eq!(t, "a & b <c>");
        }
        _ => panic!("expected text content"),
    }
}

#[test]
fn test_build_document_auto_numbering() {
    let children = vec![
        raw_para(Some("Heading1"), "Alpha"),
        raw_para(Some("Heading2"), "Beta"),
        raw_para(Some("Heading2"), "Gamma"),
        raw_para(Some("Heading1"), "Delta"),
    ];
    let doc = build_document(
        &children,
        &Vec::new(),
        &Vec::new(),
        "auto".to_string(),
        "auto.docx".to_string(),
        1,
        &Vec::new(),
        ImageOptions::default(),
    );
    let numbers: Vec<Option<String>> = doc
        .elements
        .iter()
        .map(|e| match e {
            DocumentElement::Heading { number, .. } => number.clone(),
            _ => None,
        })
        .collect();
    assert_eq!(
        numbers,
        vec![
            Some("1".to_string()),
            Some("1.1".to_string()),
            Some("1.2".to_string()),
            Some("2".to_string())
        ]
    );
}
