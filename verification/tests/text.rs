use codimate::reconcile::pivot_of;
use codimate::text::{chars_of, append, decimal_string, owned, str_eq, str_starts_with};

#[test]
fn names_in_messages_are_quoted_as_debug_prints_them() {
    for s in ["plain", "tab\there", "quote\"d", "back\\slash", "\u{e9}", "\u{7f}"] {
        let e = pivot_of(s).err().unwrap();
        assert_eq!(e.0, format!("unknown pivot {s:?} — use center, top, bottom, left or right"));
    }
}

#[test]
fn decimals_print_like_display() {
    for n in [0usize, 7, 10, 99, 100, 12345, usize::MAX] {
        assert_eq!(decimal_string(n), n.to_string());
    }
}

#[test]
fn string_helpers_behave_like_std() {
    assert_eq!(chars_of("añb"), vec!['a', 'ñ', 'b']);
    assert_eq!(append(owned("ab"), "cd"), "abcd");
    assert!(str_eq("same", "same"));
    assert!(!str_eq("same", "sane"));
    assert!(!str_eq("a", "ab"));
    assert!(str_starts_with("prefix_rest", "prefix_"));
    assert!(str_starts_with("x", ""));
    assert!(!str_starts_with("pre", "prefix"));
}
