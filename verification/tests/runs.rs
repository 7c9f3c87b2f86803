use codimate::fonts::{FontEntry, FontId, FontRegistry};
use codimate::runs::font_runs;

fn entry(id: u16, ranges: &[(u32, u32)]) -> FontEntry {
    FontEntry { id: FontId(id), name: format!("font{id}"), data: vec![1], ranges: ranges.to_vec() }
}

fn registry() -> FontRegistry {
    FontRegistry::new(vec![
        entry(0, &[(0x21, 0x7E)]),
        entry(1, &[(0x1780, 0x17FF)]),
        entry(2, &[(0x3040, 0x30FF), (0x4E00, 0x9FFF)]),
    ])
}

fn runs(text: &str) -> Vec<(u16, String)> {
    font_runs(&registry(), text).into_iter().map(|(f, s)| (f.0, s)).collect()
}

#[test]
fn text_in_one_script_is_one_run() {
    assert_eq!(runs("hello world"), vec![(0, "hello world".to_string())]);
}

#[test]
fn a_change_of_script_starts_a_new_run() {
    assert_eq!(
        runs("ក 12 日本"),
        vec![(1, "ក ".to_string()), (0, "12 ".to_string()), (2, "日本".to_string())]
    );
}

#[test]
fn whitespace_stays_with_the_run_before_it() {
    assert_eq!(runs("日 a"), vec![(2, "日 ".to_string()), (0, "a".to_string())]);
}

#[test]
fn leading_whitespace_takes_the_font_of_a_latin_letter() {
    assert_eq!(runs("  日"), vec![(0, "  ".to_string()), (2, "日".to_string())]);
}

#[test]
fn no_text_makes_no_runs() {
    assert!(runs("").is_empty());
}

#[test]
fn the_runs_put_the_text_back_together() {
    let text = "a日b ក\tc";
    let joined: String = runs(text).into_iter().map(|(_, s)| s).collect();
    assert_eq!(joined, text);
}
