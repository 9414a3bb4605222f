use doxx::heading::extract_heading_number_from_text;
use doxx::heading::determine_heading_level_from_text;
use doxx::heading::detect_heading_from_text;
use doxx::models::TextFormatting;

fn check_extraction() {
    assert_eq!(
        extract_heading_number_from_text("1. Introduction"),
        Some(("1".to_string(), "Introduction".to_string()))
    );

    assert_eq!(
        extract_heading_number_from_text("1.1 Project Overview"),
        Some(("1.1".to_string(), "Project Overview".to_string()))
    );

    assert_eq!(
        extract_heading_number_from_text("2.1.1 Something Important"),
        Some(("2.1.1".to_string(), "Something Important".to_string()))
    );

    assert_eq!(
        extract_heading_number_from_text("A. First Section"),
        Some(("A".to_string(), "First Section".to_string()))
    );

    assert_eq!(
        extract_heading_number_from_text("I. Roman Numeral"),
        Some(("I".to_string(), "Roman Numeral".to_string()))
    );

    assert_eq!(
        extract_heading_number_from_text("Section 1.2 Overview"),
        Some(("Section 1.2".to_string(), "Overview".to_string()))
    );

    assert_eq!(extract_heading_number_from_text("Introduction"), None);

    assert_eq!(extract_heading_number_from_text("Heading 1"), None);
    assert_eq!(
        extract_heading_number_from_text("Chapter 5 Summary"),
        Some(("Chapter 5".to_string(), "Summary".to_string()))
    );
    assert_eq!(extract_heading_number_from_text("Version 2"), None);
}

#[test]
fn heading_test_heading_number_extraction() {
    check_extraction();
}

#[test]
fn document_test_heading_number_extraction() {
    check_extraction();
}

#[test]
fn document_legacy_test_heading_number_extraction() {
    check_extraction();
}

#[test]
fn test_heading_level_from_length() {
    assert_eq!(determine_heading_level_from_text("Overview"), 1);
    assert_eq!(
        determine_heading_level_from_text("A Somewhat Longer Title Here"),
        2
    );
    assert_eq!(
        determine_heading_level_from_text("An Extremely Long Title That Goes On And On Forever"),
        3
    );
}

#[test]
fn test_text_shape_heuristic_bold_short() {
    let bold = TextFormatting {
        bold: true,
        italic: false,
        underline: false,
        strikethrough: false,
        font_size: None,
        color: None,
    };
    assert_eq!(detect_heading_from_text("Quarterly Results", &bold), Some(1));

    // A trailing period keeps bold text from reading as a heading.
    let plain = TextFormatting::default();
    assert_eq!(
        detect_heading_from_text("This line mentions the results in passing.", &plain),
        None
    );
}

#[test]
fn test_text_shape_heuristic_never_flags_sentences() {
    let plain = TextFormatting::default();
    assert_eq!(
        detect_heading_from_text("We met on Tuesday and agreed to ship the feature.", &plain),
        None
    );
}
