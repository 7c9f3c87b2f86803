use codimate::math::FormulaError;
use codimate::svg_text::{parse_svg_nodes, read_svg_labels, SvgLabel};

fn labels(svg: &str) -> Result<Vec<SvgLabel>, FormulaError> {
    let nodes = parse_svg_nodes(svg)?;
    read_svg_labels(&nodes)
}

fn number(raw: &Option<String>, default: f32) -> f32 {
    raw.as_deref().and_then(|d| d.parse().ok()).unwrap_or(default)
}

#[test]
fn labels_are_read_with_their_placement() {
    let svg = r##"<svg xmlns="http://www.w3.org/2000/svg" font-size="12">
            <text x="44" y="340" text-anchor="end" fill="#888">0.0</text>
        </svg>"##;
    let labels = labels(svg).expect("should read");
    assert_eq!(labels.len(), 1);
    assert_eq!(labels[0].content, "0.0");
    assert_eq!((number(&labels[0].x, 0.0), number(&labels[0].y, 0.0)), (44.0, 340.0));
    assert_eq!(labels[0].anchor, "end");
    // `font-size` is inherited from the root, which is where files put it.
    assert_eq!(number(&labels[0].size, 16.0), 12.0);
    assert!(labels[0].fill.is_some(), "#888 should parse");
}

#[test]
fn layout_we_cannot_read_is_refused() {
    for svg in [
        r#"<svg xmlns="http://www.w3.org/2000/svg"><text><tspan>a</tspan></text></svg>"#,
        r#"<svg xmlns="http://www.w3.org/2000/svg"><g transform="rotate(90)"><text x="1" y="2">a</text></g></svg>"#,
    ] {
        assert!(matches!(labels(svg), Err(FormulaError::SvgText(_))), "{svg}");
    }
}

#[test]
fn a_turned_label_is_named_in_the_refusal() {
    let svg = r#"<svg><g transform="rotate(90)"><text> y axis </text></g></svg>"#;
    match labels(svg) {
        Err(FormulaError::SvgText(m)) => assert_eq!(
            m,
            "this SVG turns the label \"y axis\", and Codimate cannot draw turned text — export it with text converted to outlines"
        ),
        _ => panic!("expected a refusal"),
    }
}

#[test]
fn spans_are_refused_with_the_layout_message() {
    match labels(r#"<svg><textPath>a</textPath></svg>"#) {
        Err(FormulaError::SvgText(m)) => assert_eq!(
            m,
            "this SVG lays out text in a way Codimate cannot read (tspan or textPath) — export it with text converted to outlines"
        ),
        _ => panic!("expected a refusal"),
    }
}

#[test]
fn empty_labels_are_passed_over_and_defaults_apply() {
    let svg = r#"<svg><text x="5">   </text><text x="7px" fill="url(#g)">b<!-- note -->c</text></svg>"#;
    let labels = labels(svg).unwrap();
    assert_eq!(labels.len(), 1);
    assert_eq!(labels[0].content, "bc");
    assert_eq!(labels[0].x.as_deref(), Some("7"));
    assert_eq!(labels[0].y, None);
    assert_eq!(labels[0].size, None);
    assert_eq!(labels[0].fill, None);
    assert_eq!(labels[0].anchor, "start");
}

#[test]
fn the_nearest_setting_wins() {
    let svg = r##"<svg fill="#000" font-size="20"><g fill="#ff0000"><text font-size=" 9pt ">a</text></g><text>b</text></svg>"##;
    let labels = labels(svg).unwrap();
    assert_eq!(labels.len(), 2);
    assert_eq!(labels[0].fill, Some((255, 0, 0)));
    assert_eq!(labels[0].size.as_deref(), Some("9"));
    assert_eq!(labels[1].fill, Some((0, 0, 0)));
    assert_eq!(labels[1].size.as_deref(), Some("20"));
}

#[test]
fn a_source_that_does_not_parse_is_an_svg_error() {
    assert!(matches!(parse_svg_nodes("<svg><text>"), Err(FormulaError::Svg(_))));
}

#[test]
fn a_fill_with_a_character_that_is_no_digit_reads_as_no_colour() {
    let nodes = parse_svg_nodes("<svg><text fill=\"#a\u{e9}\">x</text></svg>").unwrap();
    let labels = read_svg_labels(&nodes).unwrap();
    assert_eq!(labels.len(), 1);
    assert_eq!(labels[0].fill, None);
}
