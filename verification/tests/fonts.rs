use codimate::fonts::code_point_ranges;
use codimate::fonts::{is_whitespace, FontEntry, FontId, FontRegistry};
use codimate::glyph::{glyph_source, GlyphError};

fn entry(id: u16, name: &str, data: &[u8], ranges: &[(u32, u32)]) -> FontEntry {
    FontEntry { id: FontId(id), name: name.to_string(), data: data.to_vec(), ranges: ranges.to_vec() }
}

fn registry() -> FontRegistry {
    FontRegistry::new(vec![
        entry(0, "Latin", &[1, 2, 3], &[(0x20, 0x7E), (0xC0, 0xFF)]),
        entry(1, "Cjk", &[4, 5], &[(0x3040, 0x30FF), (0x4E00, 0x9FFF)]),
        entry(2, "Empty", &[], &[(0x1780, 0x17FF)]),
    ])
}

#[test]
fn each_character_goes_to_the_first_font_that_covers_it() {
    let r = registry();
    assert_eq!(r.char_font('A'), FontId(0));
    assert_eq!(r.char_font('é'), FontId(0));
    assert_eq!(r.char_font('日'), FontId(1));
    assert_eq!(r.char_font('ひ'), FontId(1));
    assert_eq!(r.char_font('ក'), FontId(2));
}

#[test]
fn whitespace_goes_to_the_first_font() {
    let r = registry();
    assert_eq!(r.char_font(' '), FontId(0));
    assert_eq!(r.char_font('\u{3000}'), FontId(0));
}

#[test]
fn an_uncovered_character_falls_back_to_the_first_font() {
    assert_eq!(registry().char_font('€'), FontId(0));
    assert_eq!(FontRegistry::new(Vec::new()).char_font('A'), FontId(0));
}

#[test]
fn fonts_are_found_by_id() {
    let r = registry();
    assert_eq!(r.len(), 3);
    assert_eq!(r.ids(), vec![FontId(0), FontId(1), FontId(2)]);
    assert_eq!(r.data(FontId(1)), &[4, 5]);
    assert_eq!(r.name(FontId(1)), "Cjk");
    assert!(r.data(FontId(9)).is_empty());
    assert_eq!(r.name(FontId(9)), "");
}

#[test]
fn font_has_reads_the_ranges_and_accepts_whitespace() {
    let r = registry();
    assert!(r.font_has(FontId(0), 'z'));
    assert!(!r.font_has(FontId(0), '日'));
    assert!(r.font_has(FontId(1), ' '));
    assert!(!r.font_has(FontId(7), 'z'));
}

#[test]
fn whitespace_is_the_unicode_white_space_set() {
    for c in [' ', '\t', '\n', '\r', '\u{0B}', '\u{0C}', '\u{85}', '\u{A0}', '\u{1680}', '\u{2000}', '\u{200A}',
        '\u{2028}', '\u{2029}', '\u{202F}', '\u{205F}', '\u{3000}'] {
        assert!(is_whitespace(c), "{c:?}");
        assert_eq!(is_whitespace(c), c.is_whitespace());
    }
    for c in ['a', '\u{200B}', '\u{180E}', '0', '_'] {
        assert_eq!(is_whitespace(c), c.is_whitespace(), "{c:?}");
    }
}

#[test]
fn empty_text_needs_no_font() {
    let r = registry();
    assert!(matches!(glyph_source(&r, "", FontId(0)), Ok(None)));
}

#[test]
fn shaping_needs_font_data() {
    let r = registry();
    assert_eq!(glyph_source(&r, "hi", FontId(0)).unwrap(), Some(&[1u8, 2, 3][..]));
    assert!(matches!(glyph_source(&r, "hi", FontId(2)), Err(GlyphError::NoFont(FontId(2)))));
    assert!(matches!(glyph_source(&r, "hi", FontId(5)), Err(GlyphError::NoFont(FontId(5)))));
}

#[test]
fn code_points_become_sorted_merged_ranges() {
    assert_eq!(code_point_ranges(&vec![]), vec![]);
    assert_eq!(code_point_ranges(&vec![65, 66, 67, 97]), vec![(65, 67), (97, 97)]);
    assert_eq!(code_point_ranges(&vec![98, 66, 65, 97, 66, 67, 65]), vec![(65, 67), (97, 98)]);
    assert_eq!(code_point_ranges(&vec![u32::MAX, 0, u32::MAX - 1]), vec![(0, 0), (u32::MAX - 1, u32::MAX)]);
}

#[test]
fn bytes_that_are_no_font_cover_nothing() {
    assert_eq!(codimate::fonts::font_coverage(b"not a font"), None);
    assert_eq!(codimate::fonts::font_coverage(&[]), None);
}
