use codimate::codecs::encode_png;
use codimate::pixels::Bitmap;
use codimate::reconcile::{
    check_kinds, check_same_kind, check_scene_count, decode_image, focus_targets, is_named_in, is_overlay,
    join_names, motion_rule, pivot_of, Motion, MotionRule, ShapeKey,
};
use codimate::scene::AnchorKind;

fn key(item: &str, kind: &str, layer: i32) -> ShapeKey {
    ShapeKey { item: item.to_string(), kind: kind.to_string(), layer }
}

fn rule(pattern: &str, kind: &str) -> MotionRule {
    MotionRule { pattern: pattern.to_string(), kind: kind.to_string() }
}

fn names(list: &[&str]) -> Vec<String> {
    list.iter().map(|s| s.to_string()).collect()
}

#[test]
fn pivot_names_map_to_anchor_points() {
    assert_eq!(pivot_of("center").unwrap(), AnchorKind::Center);
    assert_eq!(pivot_of("").unwrap(), AnchorKind::Center);
    assert_eq!(pivot_of("top").unwrap(), AnchorKind::Top);
    assert_eq!(pivot_of("bottom").unwrap(), AnchorKind::Bottom);
    assert_eq!(pivot_of("left").unwrap(), AnchorKind::Left);
    assert_eq!(pivot_of("right").unwrap(), AnchorKind::Right);
}

#[test]
fn an_unknown_pivot_is_refused_by_name() {
    let e = pivot_of("middle").err().unwrap();
    assert_eq!(e.0, "unknown pivot \"middle\" — use center, top, bottom, left or right");
}

#[test]
fn every_kind_the_engine_draws_is_accepted() {
    let scenes = vec![
        vec![key("a", "rect", 0), key("b", "circle", 0), key("c", "text", 0)],
        vec![key("d", "line", 0), key("e", "formula", 0), key("f", "polygon", 0)],
        vec![key("g", "curve", 0), key("h", "svg", 0), key("i", "image", 0)],
    ];
    assert!(check_kinds(&scenes).is_ok());
}

#[test]
fn the_first_unknown_kind_is_named_with_its_item() {
    let scenes = vec![vec![key("a", "rect", 0)], vec![key("b", "hexagon", 0), key("c", "blob", 0)]];
    let e = check_kinds(&scenes).err().unwrap();
    assert_eq!(
        e.0,
        "unknown kind \"hexagon\" on item \"b\" — Codimate draws rect, circle, text, line, formula, polygon, curve, svg, image"
    );
}

#[test]
fn there_is_one_more_scene_than_durations() {
    assert!(check_scene_count(3, 2).is_ok());
    let e = check_scene_count(2, 2).err().unwrap();
    assert_eq!(e.0, "got 2 scenes for 2 durations — expected 3");
    let e = check_scene_count(0, 11).err().unwrap();
    assert_eq!(e.0, "got 0 scenes for 11 durations — expected 12");
}

#[test]
fn an_item_keeps_its_kind() {
    assert!(check_same_kind(&key("x", "rect", 0), &key("x", "rect", 3)).is_ok());
    let e = check_same_kind(&key("x", "rect", 0), &key("x", "circle", 0)).err().unwrap();
    assert_eq!(e.0, "item \"x\" changed kind from \"rect\" to \"circle\" — an Item keeps one shape kind");
}

#[test]
fn a_shape_that_did_not_move_stays_still() {
    let rules = vec![rule("*", "fall")];
    assert_eq!(motion_rule(&rules, "bar_1", false).unwrap(), Motion::Still);
}

#[test]
fn the_first_matching_rule_names_the_path() {
    let rules = vec![rule("label_*", "linear"), rule("bar_*", "lift_carry_drop"), rule("*", "fall")];
    assert_eq!(motion_rule(&rules, "bar_1", true).unwrap(), Motion::LiftCarryDrop(1));
    assert_eq!(motion_rule(&rules, "label_x", true).unwrap(), Motion::Linear);
    assert_eq!(motion_rule(&rules, "dot", true).unwrap(), Motion::Fall);
}

#[test]
fn with_no_matching_rule_the_path_is_straight() {
    let rules = vec![rule("bar_*", "linear")];
    assert_eq!(motion_rule(&rules, "dot", true).unwrap(), Motion::Straight);
    assert_eq!(motion_rule(&Vec::new(), "dot", true).unwrap(), Motion::Straight);
    assert_eq!(motion_rule(&vec![rule("dot", "straight")], "dot", true).unwrap(), Motion::Straight);
}

#[test]
fn a_rule_naming_an_unknown_path_is_refused() {
    let rules = vec![rule("bar_*", "zigzag")];
    let e = motion_rule(&rules, "bar_2", true).err().unwrap();
    assert_eq!(e.0, "unknown motion path \"zigzag\" — use \"straight\", \"linear\", \"fall\" or \"lift_carry_drop\"");
}

#[test]
fn names_join_with_commas() {
    assert_eq!(join_names(&names(&[])), "");
    assert_eq!(join_names(&names(&["a"])), "a");
    assert_eq!(join_names(&names(&["a", "b", "c"])), "a, b, c");
    assert!(is_named_in("b", &names(&["a", "b"])));
    assert!(!is_named_in("c", &names(&["a", "b"])));
}

#[test]
fn a_camera_with_no_names_frames_the_canvas() {
    let shapes = vec![key("a", "rect", 0)];
    assert!(focus_targets(&shapes, &Vec::new()).unwrap().is_none());
}

#[test]
fn focus_frames_the_shapes_it_names() {
    let shapes = vec![key("a", "rect", 0), key("b", "circle", 0), key("c", "text", 0), key("b", "rect", 1)];
    let found = focus_targets(&shapes, &names(&["b", "c"])).unwrap().unwrap();
    assert_eq!(found, vec![1, 2, 3]);
}

#[test]
fn focus_on_a_name_that_is_not_there_is_an_error() {
    let shapes = vec![key("a", "rect", 0)];
    assert!(focus_targets(&shapes, &names(&["typo"])).is_err());
}

#[test]
fn the_refusal_lists_every_name_the_camera_was_aimed_at() {
    let shapes = vec![key("a", "rect", 0)];
    let e = focus_targets(&shapes, &names(&["ghost", "phantom"])).err().unwrap();
    assert_eq!(e.0, "focus(ghost, phantom) — no shape by that name in this scene");
}

#[test]
fn the_overlay_is_told_by_name_prefix() {
    let fixed = names(&["hud_", "title"]);
    assert!(is_overlay("hud_score", &fixed));
    assert!(is_overlay("title", &fixed));
    assert!(!is_overlay("bar_1", &fixed));
    assert!(!is_overlay("hu", &fixed));
    assert!(!is_overlay("anything", &Vec::new()));
}

#[test]
fn an_image_is_told_by_its_content() {
    let bitmap = Bitmap { width: 1, height: 1, rgba: vec![9, 8, 7, 255] };
    let pixels = decode_image("photo.jpg", &encode_png(&bitmap)).unwrap();
    assert_eq!(pixels.rgba, vec![9, 8, 7, 255]);
}

#[test]
fn a_file_that_is_neither_png_nor_jpeg_is_refused() {
    let e = decode_image("notes.txt", b"hello").err().unwrap();
    assert_eq!(e.0, "\"notes.txt\" is not a PNG or a JPEG — those are the two Codimate reads");
}

#[test]
fn a_broken_png_is_refused_naming_the_file() {
    let e = decode_image("a.png", &[0x89, 0x50, 0x4E, 0x47, 0, 0]).err().unwrap();
    assert!(e.0.starts_with("could not read the image \"a.png\": "), "{}", e.0);
}
