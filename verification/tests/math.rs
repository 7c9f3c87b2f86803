use codimate::math::{formula_error_message, latex_convertible, latex_to_typst, latex_to_typst_checked, parse_css_colour, FormulaError};

#[test]
fn css_colours_read_short_and_long_hex() {
    assert_eq!(parse_css_colour("#888"), Some((0x88, 0x88, 0x88)));
    assert_eq!(parse_css_colour("#1a2B3c"), Some((0x1a, 0x2b, 0x3c)));
    assert_eq!(parse_css_colour("  #ff0000\n"), Some((255, 0, 0)));
    assert_eq!(parse_css_colour("#abc"), Some((0xaa, 0xbb, 0xcc)));
}

#[test]
fn anything_else_reads_as_nothing() {
    assert_eq!(parse_css_colour("red"), None);
    assert_eq!(parse_css_colour("none"), None);
    assert_eq!(parse_css_colour("url(#g)"), None);
    assert_eq!(parse_css_colour("#12345"), None);
    assert_eq!(parse_css_colour("#ggg"), None);
    assert_eq!(parse_css_colour(""), None);
    assert_eq!(parse_css_colour("#"), None);
}

#[test]
fn latex_becomes_the_markup_mitex_gives() {
    for latex in [r"x^2", r"\frac{a}{b}", r"\sqrt{x}"] {
        let expected = mitex::convert_math(latex, None).unwrap();
        match latex_to_typst(latex) {
            Ok(markup) => assert_eq!(markup, expected),
            Err(e) => panic!("{latex}: {e:?}"),
        }
    }
}

#[test]
fn latex_mitex_refuses_is_a_mitex_error() {
    let latex = r"\zzzunknowncommand";
    let expected = mitex::convert_math(latex, None).unwrap_err();
    match latex_to_typst(latex) {
        Err(FormulaError::Mitex(message)) => assert_eq!(message, expected),
        other => panic!("expected a mitex error, got {other:?}"),
    }
}

#[test]
fn css_digits_must_all_be_hex_digits() {
    assert_eq!(parse_css_colour("#+f+f+f"), None);
    assert_eq!(parse_css_colour("#a\u{e9}"), None);
    assert_eq!(parse_css_colour("#\u{e9}\u{e9}\u{e9}"), None);
}

#[test]
fn latex_with_its_arguments_in_place_is_convertible() {
    assert!(latex_convertible(r"x^2 + \frac{a}{b}"));
    assert!(latex_convertible(r"\begin{bmatrix} a & b \\ c & d \end{bmatrix}"));
    assert!(latex_convertible(r"a^2 + b^2 = c^2 \label{eq:pythagoras}"));
    assert!(latex_convertible(r"\includegraphics[width=3cm]{cat.png}"));
    assert!(latex_convertible(r"\labels"));
    assert!(latex_convertible(""));
}

#[test]
fn latex_whose_arguments_mitex_would_not_find_is_not_convertible() {
    assert!(!latex_convertible(r"x \label"));
    assert!(!latex_convertible(r"x \label y"));
    assert!(!latex_convertible(r"\caption"));
    assert!(!latex_convertible(r"\includegraphics x"));
    assert!(!latex_convertible(r"\begin{}"));
    assert!(!latex_convertible(r"\begin{ tabular } x"));
    assert!(!latex_convertible(r"\begin{tabular} a \end{tabular}"));
    assert!(!latex_convertible(r"\label{"));
    assert!(!latex_convertible(r"\newcommand{\a}{\a}\a"));
    assert!(!latex_convertible(r"\renewenvironment*{x}{}{}"));
}

#[test]
fn a_braced_label_converts_as_mitex_converts_it() {
    let latex = r"a^2 + b^2 = c^2 \label{eq:pythagoras}";
    let expected = mitex::convert_math(latex, None).unwrap();
    assert_eq!(latex_to_typst(latex).unwrap(), expected);
}

#[test]
fn a_formula_failure_is_told_in_a_sentence_quoting_the_latex() {
    assert_eq!(
        formula_error_message("x^2", FormulaError::Mitex("boom".to_string())),
        "could not read the LaTeX \"x^2\": boom"
    );
    assert_eq!(
        formula_error_message("x^2", FormulaError::TypstCompile("bad".to_string())),
        "could not typeset \"x^2\":\nbad"
    );
    assert_eq!(
        formula_error_message("x^2", FormulaError::Svg("odd".to_string())),
        "could not read the typeset \"x^2\": odd"
    );
    let spawn = FormulaError::TypstSpawn(std::io::Error::new(std::io::ErrorKind::NotFound, "typst"));
    assert_eq!(
        formula_error_message("x^2", spawn),
        "could not run `typst`, which Codimate uses to typeset \"x^2\". Install it (macOS: `brew install typst`) \u{2014} like ffmpeg it is an external tool, not a Python dependency."
    );
}

#[test]
fn an_imported_drawing_error_passes_through() {
    assert_eq!(formula_error_message("x", FormulaError::SvgText("turned".to_string())), "turned");
    assert_eq!(formula_error_message("x", FormulaError::SvgRead("gone".to_string())), "gone");
}

#[test]
fn latex_nested_as_deep_as_allowed_converts() {
    let braces = format!("{}x{}", "{".repeat(128), "}".repeat(128));
    let roots = format!("{}x", "\\sqrt ".repeat(128));
    let scripts = format!("x{}", "^".repeat(128));
    for latex in [braces, roots, scripts] {
        assert!(latex_convertible(&latex));
        let expected = mitex::convert_math(&latex, None);
        match latex_to_typst(&latex) {
            Ok(markup) => assert_eq!(Ok(markup), expected),
            Err(FormulaError::Mitex(m)) => assert_eq!(Err(m), expected),
            Err(other) => panic!("unexpected {other:?}"),
        }
    }
}

#[test]
fn latex_nested_deeper_is_refused_before_mitex() {
    let braces = format!("{}x{}", "{".repeat(129), "}".repeat(129));
    assert!(!latex_convertible(&braces));
    match latex_to_typst_checked(&braces) {
        Err(FormulaError::Mitex(m)) => assert!(m.starts_with("this LaTeX is outside what Codimate hands to mitex")),
        other => panic!("expected a refusal, got {other:?}"),
    }
    assert!(!latex_convertible(&"\\sqrt ".repeat(129)));
}

#[test]
fn checked_conversion_agrees_with_mitex_where_ready() {
    let latex = r"\frac{a}{b}";
    assert_eq!(latex_to_typst_checked(latex).unwrap(), mitex::convert_math(latex, None).unwrap());
    match latex_to_typst_checked(r"x \label") {
        Err(FormulaError::Mitex(m)) => assert!(m.contains("needs its arguments in braces")),
        other => panic!("expected a refusal, got {other:?}"),
    }
}
