use codimate::colour::{parse_color, ColourSpec};

#[test]
fn named_colours_are_known() {
    assert_eq!(parse_color("none").unwrap(), ColourSpec::Transparent);
    assert_eq!(parse_color("transparent").unwrap(), ColourSpec::Transparent);
    assert_eq!(parse_color("white").unwrap(), ColourSpec::White);
    assert_eq!(parse_color("black").unwrap(), ColourSpec::Black);
    assert_eq!(parse_color("red").unwrap(), ColourSpec::Red);
    assert_eq!(parse_color("cyan").unwrap(), ColourSpec::Cyan);
    assert_eq!(parse_color("orange").unwrap(), ColourSpec::Orange);
    assert_eq!(parse_color("blue").unwrap(), ColourSpec::Blue);
    assert_eq!(parse_color("green").unwrap(), ColourSpec::Green);
    assert_eq!(parse_color("grey").unwrap(), ColourSpec::Grey);
    assert_eq!(parse_color("gray").unwrap(), ColourSpec::Grey);
    assert_eq!(parse_color("yellow").unwrap(), ColourSpec::Yellow);
}

#[test]
fn hex_colours_read_in_either_case() {
    assert_eq!(parse_color("#ff8000").unwrap(), ColourSpec::Rgb(255, 128, 0));
    assert_eq!(parse_color("#FF8000").unwrap(), ColourSpec::Rgb(255, 128, 0));
    assert_eq!(parse_color("#0a0B0c").unwrap(), ColourSpec::Rgb(10, 11, 12));
}

#[test]
fn a_sign_is_not_a_hex_digit() {
    let e = parse_color("#+f0000").err().unwrap();
    assert_eq!(e.0, "bad hex color: #+f0000");
    let e = parse_color("#+f+f+f").err().unwrap();
    assert_eq!(e.0, "bad hex color: #+f+f+f");
}

#[test]
fn a_malformed_hex_colour_is_refused_as_such() {
    let e = parse_color("#zz0000").err().unwrap();
    assert_eq!(e.0, "bad hex color: #zz0000");
}

#[test]
fn an_unknown_name_is_refused_with_a_hint() {
    let e = parse_color("purple").err().unwrap();
    assert_eq!(e.0, "unknown color \"purple\" — use a name or #rrggbb");
    let e = parse_color("#fff").err().unwrap();
    assert_eq!(e.0, "unknown color \"#fff\" — use a name or #rrggbb");
}

#[test]
fn a_hex_name_with_a_character_inside_is_a_bad_hex_colour() {
    let e = parse_color("#a\u{e9}000").err().unwrap();
    assert_eq!(e.0, "bad hex color: #a\u{e9}000");
    let e = parse_color("#\u{e9}\u{e9}\u{e9}").err().unwrap();
    assert_eq!(e.0, "bad hex color: #\u{e9}\u{e9}\u{e9}");
}
