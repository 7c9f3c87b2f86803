use codimate::order::{draw_order, last_index_named, str_lt, Pairing};
use codimate::reconcile::ShapeKey;

fn key(item: &str, layer: i32) -> ShapeKey {
    ShapeKey { item: item.to_string(), kind: "rect".to_string(), layer }
}

fn pair(before: Option<usize>, after: Option<usize>) -> Pairing {
    Pairing { before, after }
}

#[test]
fn strings_sort_character_by_character() {
    assert!(str_lt("a", "b"));
    assert!(str_lt("ab", "abc"));
    assert!(!str_lt("abc", "ab"));
    assert!(!str_lt("same", "same"));
    assert!(str_lt("", "x"));
    assert!(str_lt("Z", "a"));
}

#[test]
fn shapes_are_drawn_by_layer_then_name() {
    let before = vec![key("b", 0), key("a", 1)];
    let after = vec![key("c", 0), key("b", 0)];
    let order = draw_order(&before, &after);
    // b and c on layer 0 (b first), then a on layer 1.
    assert_eq!(order, vec![pair(Some(0), Some(1)), pair(None, Some(0)), pair(Some(1), None)]);
}

#[test]
fn entering_and_leaving_items_are_paired_with_one_side() {
    let before = vec![key("old", 0)];
    let after = vec![key("new", 0)];
    let order = draw_order(&before, &after);
    assert_eq!(order, vec![pair(None, Some(0)), pair(Some(0), None)]);
}

#[test]
fn a_repeated_name_stands_for_its_last_record() {
    let before = vec![key("x", 0), key("x", 0)];
    let after = vec![key("x", 0)];
    let order = draw_order(&before, &after);
    assert_eq!(order, vec![pair(Some(1), Some(0))]);
    assert_eq!(last_index_named(&before, "x"), Some(1));
    assert_eq!(last_index_named(&before, "y"), None);
}

#[test]
fn an_item_that_changes_layer_is_drawn_at_each() {
    let before = vec![key("x", 2)];
    let after = vec![key("x", 0), key("y", 1)];
    let order = draw_order(&before, &after);
    assert_eq!(order, vec![pair(Some(0), Some(0)), pair(None, Some(1)), pair(Some(0), Some(0))]);
}

#[test]
fn nothing_before_or_after_draws_nothing() {
    assert!(draw_order(&Vec::new(), &Vec::new()).is_empty());
}
