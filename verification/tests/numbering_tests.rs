use doxx::numbering::DocumentNumberingManager;
use doxx::numbering::HeadingNumberTracker;
use doxx::numbering::NumberingFormat;

#[test]
fn test_roman_small_table() {
    let expected = [
        "I", "II", "III", "IV", "V", "VI", "VII", "VIII", "IX", "X", "XI", "XII", "XIII", "XIV",
        "XV", "XVI", "XVII", "XVIII", "XIX", "XX",
    ];
    let mut n: u32 = 1;
    while n <= 20 {
        assert_eq!(
            DocumentNumberingManager::to_roman(n),
            expected[(n - 1) as usize]
        );
        n += 1;
    }
}

#[test]
fn test_roman_samples() {
    assert_eq!(DocumentNumberingManager::to_roman(4), "IV");
    assert_eq!(DocumentNumberingManager::to_roman(9), "IX");
    assert_eq!(DocumentNumberingManager::to_roman(40), "XL");
    assert_eq!(DocumentNumberingManager::to_roman(90), "XC");
    assert_eq!(DocumentNumberingManager::to_roman(400), "CD");
    assert_eq!(DocumentNumberingManager::to_roman(900), "CM");
    assert_eq!(DocumentNumberingManager::to_roman(1994), "MCMXCIV");
    assert_eq!(DocumentNumberingManager::to_roman(3999), "MMMCMXCIX");
}

#[test]
fn test_list_numbering_monotonic() {
    let mut m = DocumentNumberingManager::new();
    assert_eq!(m.generate_number(2, 0, NumberingFormat::Decimal), "1. ");
    assert_eq!(m.generate_number(2, 0, NumberingFormat::Decimal), "2. ");
    assert_eq!(m.generate_number(2, 0, NumberingFormat::Decimal), "3. ");
}

#[test]
fn test_list_numbering_resets_deeper() {
    let mut m = DocumentNumberingManager::new();
    assert_eq!(m.generate_number(1, 0, NumberingFormat::Decimal), "1. ");
    assert_eq!(m.generate_number(1, 1, NumberingFormat::LowerLetter), "a. ");
    assert_eq!(m.generate_number(1, 1, NumberingFormat::LowerLetter), "b. ");
    // Incrementing the parent resets the child.
    assert_eq!(m.generate_number(1, 0, NumberingFormat::Decimal), "2. ");
    assert_eq!(m.generate_number(1, 1, NumberingFormat::LowerLetter), "a. ");
}

#[test]
fn test_hierarchical_pair() {
    let mut m = DocumentNumberingManager::new();
    assert_eq!(m.generate_number(4, 0, NumberingFormat::Decimal), "1. ");
    assert_eq!(m.generate_number(4, 1, NumberingFormat::Decimal), "1.1. ");
    assert_eq!(m.generate_number(4, 1, NumberingFormat::Decimal), "1.2. ");
    assert_eq!(m.generate_number(4, 0, NumberingFormat::Decimal), "2. ");
    assert_eq!(m.generate_number(4, 1, NumberingFormat::Decimal), "2.1. ");
}

#[test]
fn test_roman_and_paren_formats() {
    let mut m = DocumentNumberingManager::new();
    assert_eq!(m.generate_number(7, 2, NumberingFormat::LowerRoman), "i. ");
    assert_eq!(m.generate_number(7, 2, NumberingFormat::LowerRoman), "ii. ");
    assert_eq!(
        m.generate_number(5, 2, NumberingFormat::ParenLowerLetter),
        "(a)"
    );
    assert_eq!(
        m.generate_number(5, 2, NumberingFormat::ParenLowerLetter),
        "(b)"
    );
}

#[test]
fn test_letters_past_twenty_six_fall_back() {
    let mut m = DocumentNumberingManager::new();
    let mut k = 0;
    let mut last = String::new();
    while k < 27 {
        last = m.generate_number(9, 0, NumberingFormat::LowerLetter);
        k += 1;
    }
    assert_eq!(last, "27. ");
}

#[test]
fn test_heading_tracker_disabled_gives_nothing() {
    let mut t = HeadingNumberTracker::new();
    assert_eq!(t.get_number(1), "");
}

#[test]
fn test_heading_tracker_hierarchy() {
    let mut t = HeadingNumberTracker::new();
    t.enable_auto_numbering();
    assert_eq!(t.get_number(1), "1");
    assert_eq!(t.get_number(2), "1.1");
    assert_eq!(t.get_number(2), "1.2");
    assert_eq!(t.get_number(3), "1.2.1");
    assert_eq!(t.get_number(1), "2");
    assert_eq!(t.get_number(2), "2.1");
}
