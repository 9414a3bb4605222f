use doxx::list::is_likely_list_item;
use doxx::list::calculate_list_level;
use doxx::list::group_list_items;
use doxx::list::get_numbering_format;
use doxx::numbering::NumberingFormat;
use doxx::models::DocumentElement;
use doxx::models::FormattedRun;
use doxx::models::TextFormatting;
use doxx::cleanup::clean_word_list_markers;

fn para(text: &str) -> DocumentElement {
    DocumentElement::Paragraph {
        runs: vec![FormattedRun {
            text: text.to_string(),
            formatting: TextFormatting::default(),
        }],
    }
}

#[test]
fn test_list_item_detection() {
    assert!(is_likely_list_item("\u{2022} a bullet"));
    assert!(is_likely_list_item("- a dash item"));
    assert!(is_likely_list_item("* a star item"));
    assert!(is_likely_list_item(
        "1. a numbered line with plenty of following content"
    ));
    // A short numbered line reads as a heading, not a list item.
    assert!(!is_likely_list_item("1. Introduction"));
    assert!(is_likely_list_item("a. lettered"));
    assert!(!is_likely_list_item("plain sentence"));
}

#[test]
fn test_list_level_from_indentation() {
    assert_eq!(calculate_list_level("no indent"), 0);
    assert_eq!(calculate_list_level("  one level"), 1);
    assert_eq!(calculate_list_level("    two levels"), 2);
}

#[test]
fn test_numbering_format_table() {
    assert!(matches!(get_numbering_format(4, 2), NumberingFormat::LowerRoman));
    assert!(matches!(
        get_numbering_format(5, 2),
        NumberingFormat::ParenLowerLetter
    ));
    assert!(matches!(get_numbering_format(1, 1), NumberingFormat::LowerLetter));
    assert!(matches!(get_numbering_format(99, 0), NumberingFormat::Decimal));
    assert!(matches!(get_numbering_format(99, 4), NumberingFormat::UpperRoman));
}

#[test]
fn test_grouping_coalesces_bullets() {
    let elements = vec![
        para("Intro text"),
        para("\u{2022} first"),
        para("\u{2022} second"),
        para("Closing text"),
    ];
    let grouped = group_list_items(elements);
    assert_eq!(grouped.len(), 3);
    match &grouped[1] {
        DocumentElement::List { items, ordered } => {
            assert!(!ordered);
            assert_eq!(items.len(), 2);
            let first: String = items[0].runs.iter().map(|r| r.text.as_str()).collect();
            assert_eq!(first, "first");
        }
        _ => panic!("expected a list element"),
    }
}

#[test]
fn test_grouping_splits_on_order_change() {
    let elements = vec![
        para("1. first ordered item with plenty of content here"),
        para("\u{2022} a bullet"),
    ];
    let grouped = group_list_items(elements);
    assert_eq!(grouped.len(), 2);
    match (&grouped[0], &grouped[1]) {
        (
            DocumentElement::List { ordered: o1, .. },
            DocumentElement::List { ordered: o2, .. },
        ) => {
            assert!(*o1);
            assert!(!*o2);
        }
        _ => panic!("expected two list elements"),
    }
}

#[test]
fn test_marker_cleanup() {
    let elements = vec![DocumentElement::Paragraph {
        runs: vec![FormattedRun {
            text: "__WORD_LIST__1. item text".to_string(),
            formatting: TextFormatting::default(),
        }],
    }];
    let cleaned = clean_word_list_markers(elements);
    match &cleaned[0] {
        DocumentElement::Paragraph { runs } => {
            assert_eq!(runs[0].text, "1. item text");
        }
        _ => panic!("expected a paragraph"),
    }
}
