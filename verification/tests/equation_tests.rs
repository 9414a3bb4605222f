use doxx::equation::Equation;
use doxx::equation::to_subscript;
use doxx::equation::to_superscript;
use doxx::equation::omml_to_latex;
use doxx::equation::parse_omml_to_unicode;
use doxx::equation::parse_simple_omml;

#[test]
fn test_superscript_conversion() {
    assert_eq!(to_superscript("2"), "\u{00B2}");
    assert_eq!(to_superscript("n"), "\u{207F}");
    assert_eq!(to_superscript("10"), "\u{00B9}\u{2070}");
}

#[test]
fn test_subscript_conversion() {
    assert_eq!(to_subscript("0"), "\u{2080}");
    assert_eq!(to_subscript("k"), "\u{2096}");
    assert_eq!(to_subscript("n-k"), "\u{2099}\u{208B}\u{2096}");
}

#[test]
fn test_simple_fraction() {
    let omml = "<m:f><m:num><m:r><m:t>1</m:t></m:r></m:num><m:den><m:r><m:t>2</m:t></m:r></m:den></m:f>";
    let eq = Equation::from_omml(omml.to_string()).unwrap();
    assert_eq!(eq.unicode, "\u{00BD}");
}

#[test]
fn test_generic_fraction_unicode() {
    let omml = "<m:f><m:num><m:r><m:t>a</m:t></m:r></m:num><m:den><m:r><m:t>b</m:t></m:r></m:den></m:f>";
    let u = parse_omml_to_unicode(omml).unwrap();
    assert_eq!(u, "(a\u{2044}b)");
}

#[test]
fn test_generic_fraction_latex() {
    let omml = "<m:f><m:num><m:r><m:t>a</m:t></m:r></m:num><m:den><m:r><m:t>b</m:t></m:r></m:den></m:f>";
    assert_eq!(omml_to_latex(omml), "\\frac{a}{b}");
}

#[test]
fn test_superscript_equation() {
    let omml = "<m:sSup><m:e><m:r><m:t>x</m:t></m:r></m:e><m:sup><m:r><m:t>2</m:t></m:r></m:sup></m:sSup>";
    let u = parse_omml_to_unicode(omml).unwrap();
    assert_eq!(u, "x\u{00B2}");
    assert_eq!(omml_to_latex(omml), "x^{2}");
}

#[test]
fn test_binomial_latex() {
    let omml = "<m:f><m:fPr><m:type m:val=\"noBar\"/></m:fPr><m:num><m:r><m:t>n</m:t></m:r></m:num><m:den><m:r><m:t>k</m:t></m:r></m:den></m:f>";
    assert_eq!(omml_to_latex(omml), "\\binom{n}{k}");
}

#[test]
fn test_parse_simple_omml_fallback() {
    let omml = "<m:r><m:t>E=mc</m:t></m:r>";
    let (latex, fallback) = parse_simple_omml(omml);
    assert_eq!(fallback, "E=mc");
    assert_eq!(latex, "E=mc");
}

#[test]
fn test_malformed_omml_degrades() {
    // A dangling open tag parses to whatever was accumulated.
    let omml = "<m:f><m:num><m:r><m:t>1</m:t></m:r></m:num>";
    let eq = Equation::from_omml(omml.to_string()).unwrap();
    assert_eq!(eq.fallback, "1");
}
