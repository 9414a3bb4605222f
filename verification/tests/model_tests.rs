use doxx::models::FormattedRun;
use doxx::models::TextFormatting;
use doxx::estimate_page_count;

#[test]
fn test_strikethrough_formatting_structure() {
    let formatting = TextFormatting {
        bold: false,
        italic: false,
        underline: false,
        strikethrough: true,
        font_size: None,
        color: None,
    };

    assert!(formatting.strikethrough);
    assert!(!formatting.bold);
    assert!(!formatting.italic);
    assert!(!formatting.underline);
}

#[test]
fn test_strikethrough_formatting_default() {
    let formatting = TextFormatting::default();
    assert!(!formatting.strikethrough);
}

#[test]
fn test_formatted_run_with_strikethrough() {
    let formatting = TextFormatting {
        bold: false,
        italic: false,
        underline: false,
        strikethrough: true,
        font_size: None,
        color: None,
    };

    let run = FormattedRun {
        text: "This text is struck through".to_string(),
        formatting,
    };

    assert!(run.formatting.strikethrough);
    assert_eq!(run.text, "This text is struck through");
}

#[test]
fn test_mixed_formatting_with_strikethrough() {
    let formatting = TextFormatting {
        bold: true,
        italic: true,
        underline: false,
        strikethrough: true,
        font_size: Some(12),
        color: Some("#FF0000".to_string()),
    };

    assert!(formatting.bold);
    assert!(formatting.italic);
    assert!(!formatting.underline);
    assert!(formatting.strikethrough);
    assert_eq!(formatting.font_size, Some(12));
    assert_eq!(formatting.color, Some("#FF0000".to_string()));
}

#[test]
fn test_run_consolidation_with_strikethrough() {
    let formatting1 = TextFormatting {
        bold: false,
        italic: false,
        underline: false,
        strikethrough: true,
        font_size: None,
        color: None,
    };

    let formatting2 = formatting1.clone();

    let runs = vec![
        FormattedRun {
            text: "First part ".to_string(),
            formatting: formatting1,
        },
        FormattedRun {
            text: "second part".to_string(),
            formatting: formatting2,
        },
    ];

    let consolidated = FormattedRun::consolidate_runs(runs);
    assert_eq!(consolidated.len(), 1);
    assert_eq!(consolidated[0].text, "First part second part");
    assert!(consolidated[0].formatting.strikethrough);
}

#[test]
fn test_run_consolidation_different_strikethrough() {
    let formatting1 = TextFormatting {
        bold: false,
        italic: false,
        underline: false,
        strikethrough: true,
        font_size: None,
        color: None,
    };

    let formatting2 = TextFormatting {
        bold: false,
        italic: false,
        underline: false,
        strikethrough: false,
        font_size: None,
        color: None,
    };

    let runs = vec![
        FormattedRun {
            text: "Struck text ".to_string(),
            formatting: formatting1,
        },
        FormattedRun {
            text: "normal text".to_string(),
            formatting: formatting2,
        },
    ];

    let consolidated = FormattedRun::consolidate_runs(runs);
    assert_eq!(consolidated.len(), 2);
    assert_eq!(consolidated[0].text, "Struck text ");
    assert!(consolidated[0].formatting.strikethrough);
    assert_eq!(consolidated[1].text, "normal text");
    assert!(!consolidated[1].formatting.strikethrough);
}

fn run(text: &str, bold: bool) -> FormattedRun {
    FormattedRun {
        text: text.to_string(),
        formatting: TextFormatting {
            bold,
            italic: false,
            underline: false,
            strikethrough: false,
            font_size: None,
            color: None,
        },
    }
}

#[test]
fn test_consolidation_lossless_concatenation() {
    let runs = vec![run("a", false), run("b", false), run("c", true), run("d", true)];
    let original: String = runs.iter().map(|r| r.text.as_str()).collect::<String>();
    let consolidated = FormattedRun::consolidate_runs(runs);
    let after: String = consolidated.iter().map(|r| r.text.as_str()).collect::<String>();
    assert_eq!(original, after);
    assert_eq!(consolidated.len(), 2);
    assert_eq!(consolidated[0].text, "ab");
    assert_eq!(consolidated[1].text, "cd");
}

#[test]
fn test_consolidation_idempotent() {
    let runs = vec![run("x", false), run("y", false), run("z", true)];
    let once = FormattedRun::consolidate_runs(runs);
    let once_texts: Vec<String> = once.iter().map(|r| r.text.clone()).collect();
    let twice = FormattedRun::consolidate_runs(once);
    let twice_texts: Vec<String> = twice.iter().map(|r| r.text.clone()).collect();
    assert_eq!(once_texts, twice_texts);
}

#[test]
fn test_consolidation_empty() {
    let consolidated = FormattedRun::consolidate_runs(Vec::new());
    assert_eq!(consolidated.len(), 0);
}

#[test]
fn test_page_count_rounds_up() {
    assert_eq!(estimate_page_count(0), 0);
    assert_eq!(estimate_page_count(1), 1);
    assert_eq!(estimate_page_count(250), 1);
    assert_eq!(estimate_page_count(251), 2);
    assert_eq!(estimate_page_count(500), 2);
    assert_eq!(estimate_page_count(501), 3);
}
