//! The decisions of reconciliation: which kinds a scene may hold, which rule
//! moves an item, what a pivot name means, which shapes a camera frames or
//! leaves alone, and what an image file holds. Everything here works on names,
//! counts and bytes; the geometry that follows from these decisions is drawn
//! elsewhere.

use vstd::prelude::*;
use crate::scene::AnchorKind;
use crate::codecs::{decode_jpeg, decode_png, jpeg_decoded_as, jpeg_frame_refusal, jpeg_header, png_pixels, png_refusal};
use crate::glob::{glob_accepts, glob_match};
use crate::pixels::Pixels;
use crate::text::{append, debug_quoted, debug_text, decimal, decimal_string, owned, str_eq, starts_with, str_starts_with};

verus! {

/// Why a Scene could not be built. Every one is an authoring mistake; the
/// message says which.
#[derive(Clone, Debug)]
pub struct Error(pub String);

/// The point a pivot name stands for: `center` (or nothing), `top`,
/// `bottom`, `left` or `right`.
pub open spec fn pivot_named(s: Seq<char>) -> Option<AnchorKind> {
    if s == "center"@ || s == ""@ {
        Some(AnchorKind::Center)
    } else if s == "top"@ {
        Some(AnchorKind::Top)
    } else if s == "bottom"@ {
        Some(AnchorKind::Bottom)
    } else if s == "left"@ {
        Some(AnchorKind::Left)
    } else if s == "right"@ {
        Some(AnchorKind::Right)
    } else {
        None
    }
}

/// What a shape turns and grows around. An unknown name is refused, quoting
/// it and listing the ones that work.
pub fn pivot_of(name: &str) -> (r: Result<AnchorKind, Error>)
    ensures
        match pivot_named(name@) {
            Some(k) => r == Ok::<AnchorKind, Error>(k),
            None => r matches Err(e) && e.0@ == "unknown pivot "@ + debug_text(name@)
                + " — use center, top, bottom, left or right"@,
        },
{
    if str_eq(name, "center") || str_eq(name, "") {
        Ok(AnchorKind::Center)
    } else if str_eq(name, "top") {
        Ok(AnchorKind::Top)
    } else if str_eq(name, "bottom") {
        Ok(AnchorKind::Bottom)
    } else if str_eq(name, "left") {
        Ok(AnchorKind::Left)
    } else if str_eq(name, "right") {
        Ok(AnchorKind::Right)
    } else {
        let msg = append(owned("unknown pivot "), debug_quoted(name).as_str());
        Err(Error(append(msg, " — use center, top, bottom, left or right")))
    }
}


/// What the decisions read of a shape: its stable name, its kind and the
/// layer it is drawn on.
pub struct ShapeKey {
    pub item: String,
    pub kind: String,
    pub layer: i32,
}

/// The kinds of shape a scene may hold.
pub open spec fn known_kind(k: Seq<char>) -> bool {
    k == "rect"@ || k == "circle"@ || k == "text"@ || k == "line"@ || k == "formula"@
        || k == "polygon"@ || k == "curve"@ || k == "svg"@ || k == "image"@
}

/// Whether `kind` is one of the kinds a scene may hold.
pub fn is_known_kind(kind: &str) -> (r: bool)
    ensures
        r == known_kind(kind@),
{
    str_eq(kind, "rect") || str_eq(kind, "circle") || str_eq(kind, "text") || str_eq(kind, "line")
        || str_eq(kind, "formula") || str_eq(kind, "polygon") || str_eq(kind, "curve")
        || str_eq(kind, "svg") || str_eq(kind, "image")
}

/// The message for a shape of a kind nothing draws.
pub open spec fn unknown_kind_message(kind: Seq<char>, item: Seq<char>) -> Seq<char> {
    "unknown kind "@ + debug_text(kind) + " on item "@ + debug_text(item)
        + " — Codimate draws rect, circle, text, line, formula, polygon, curve, svg, image"@
}

/// Every shape of every scene has a kind that can be drawn; the first one
/// that has not (scene by scene, shape by shape) is refused, naming its kind
/// and item.
pub fn check_kinds(scenes: &Vec<Vec<ShapeKey>>) -> (r: Result<(), Error>)
    ensures
        match r {
            Ok(_) => forall|i: int, j: int| 0 <= i < scenes.len() && 0 <= j < scenes[i].len()
                ==> known_kind(#[trigger] scenes[i][j].kind@),
            Err(e) => exists|i: int, j: int| {
                &&& 0 <= i < scenes.len() && 0 <= j < scenes[i].len()
                &&& !known_kind(#[trigger] scenes[i][j].kind@)
                &&& forall|i2: int, j2: int| 0 <= i2 < scenes.len() && 0 <= j2 < scenes[i2].len()
                    && (i2 < i || (i2 == i && j2 < j)) ==> known_kind(#[trigger] scenes[i2][j2].kind@)
                &&& e.0@ == unknown_kind_message(scenes[i][j].kind@, scenes[i][j].item@)
            },
        },
{
    let mut i: usize = 0;
    while i < scenes.len()
        invariant
            i <= scenes.len(),
            forall|i2: int, j2: int| 0 <= i2 < i && 0 <= j2 < scenes[i2].len()
                ==> known_kind(#[trigger] scenes[i2][j2].kind@),
        decreases scenes.len() - i,
    {
        let scene = &scenes[i];
        let mut j: usize = 0;
        while j < scene.len()
            invariant
                i < scenes.len(),
                scene == &scenes[i as int],
                j <= scene.len(),
                forall|i2: int, j2: int| 0 <= i2 < i && 0 <= j2 < scenes[i2].len()
                    ==> known_kind(#[trigger] scenes[i2][j2].kind@),
                forall|j2: int| 0 <= j2 < j ==> known_kind(#[trigger] scenes[i as int][j2].kind@),
            decreases scene.len() - j,
        {
            let shape = &scene[j];
            if !is_known_kind(shape.kind.as_str()) {
                let m = append(owned("unknown kind "), debug_quoted(shape.kind.as_str()).as_str());
                let m = append(m, " on item ");
                let m = append(m, debug_quoted(shape.item.as_str()).as_str());
                let m = append(m, " — Codimate draws rect, circle, text, line, formula, polygon, curve, svg, image");
                proof {
                    assert(!known_kind(scenes[i as int][j as int].kind@));
                }
                return Err(Error(m));
            }
            j += 1;
        }
        i += 1;
    }
    Ok(())
}

/// The message when the scenes and the durations do not line up.
pub open spec fn count_message(scenes: nat, durations: nat) -> Seq<char> {
    "got "@ + decimal(scenes) + " scenes for "@ + decimal(durations) + " durations — expected "@
        + decimal(durations + 1)
}

/// An explanation has one opening scene and one more per event, so exactly
/// one scene more than durations.
pub fn check_scene_count(scenes: usize, durations: usize) -> (r: Result<(), Error>)
    requires
        durations < usize::MAX,
    ensures
        match r {
            Ok(_) => scenes == durations + 1,
            Err(e) => scenes != durations + 1 && e.0@ == count_message(scenes as nat, durations as nat),
        },
{
    if scenes != durations + 1 {
        let m = append(owned("got "), decimal_string(scenes).as_str());
        let m = append(m, " scenes for ");
        let m = append(m, decimal_string(durations).as_str());
        let m = append(m, " durations — expected ");
        let m = append(m, decimal_string(durations + 1).as_str());
        Err(Error(m))
    } else {
        Ok(())
    }
}

/// An item keeps one shape kind from one moment to the next.
pub fn check_same_kind(before: &ShapeKey, after: &ShapeKey) -> (r: Result<(), Error>)
    ensures
        match r {
            Ok(_) => before.kind@ == after.kind@,
            Err(e) => before.kind@ != after.kind@ && e.0@ == "item "@ + debug_text(after.item@)
                + " changed kind from "@ + debug_text(before.kind@) + " to "@ + debug_text(after.kind@)
                + " — an Item keeps one shape kind"@,
        },
{
    if !str_eq(before.kind.as_str(), after.kind.as_str()) {
        let m = append(owned("item "), debug_quoted(after.item.as_str()).as_str());
        let m = append(m, " changed kind from ");
        let m = append(m, debug_quoted(before.kind.as_str()).as_str());
        let m = append(m, " to ");
        let m = append(m, debug_quoted(after.kind.as_str()).as_str());
        Err(Error(append(m, " — an Item keeps one shape kind")))
    } else {
        Ok(())
    }
}

/// How a shape travels from where it was to where it is.
#[derive(Clone, Copy, Debug, PartialEq, Eq, Structural)]
pub enum Motion {
    /// It did not move, so it does not travel, whatever a rule says.
    Still,
    /// Eased in and out along the straight line.
    Straight,
    /// Along the straight line at constant speed.
    Linear,
    /// Drifting sideways evenly while falling faster and faster.
    Fall,
    /// Up, across and down; the rule at this index holds the clearance.
    LiftCarryDrop(usize),
}

/// A motion rule as the decisions read it: which items it applies to, and the
/// name of the path it gives them.
pub struct MotionRule {
    pub pattern: String,
    pub kind: String,
}

/// The index of the first rule whose pattern accepts `item`.
pub open spec fn first_rule(rules: Seq<MotionRule>, item: Seq<char>) -> Option<int>
    decreases rules.len(),
{
    if rules.len() == 0 {
        None
    } else {
        match first_rule(rules.drop_last(), item) {
            Some(i) => Some(i),
            None => if glob_accepts(rules.last().pattern@, item) {
                Some(rules.len() - 1)
            } else {
                None
            },
        }
    }
}

/// The path a named motion kind stands for; `lift_carry_drop` carries the
/// index of its rule.
pub open spec fn motion_named(kind: Seq<char>, rule: int) -> Option<Motion> {
    if kind == "straight"@ {
        Some(Motion::Straight)
    } else if kind == "linear"@ {
        Some(Motion::Linear)
    } else if kind == "fall"@ {
        Some(Motion::Fall)
    } else if kind == "lift_carry_drop"@ {
        Some(Motion::LiftCarryDrop(rule as usize))
    } else {
        None
    }
}

/// The journey of one item between two moments: a shape that did not move
/// stays still; otherwise the first rule whose pattern accepts the item
/// names the path, and with no such rule the path is straight. A rule naming
/// an unknown path is refused.
pub fn motion_rule(rules: &Vec<MotionRule>, item: &str, moved: bool) -> (r: Result<Motion, Error>)
    ensures
        !moved ==> r == Ok::<Motion, Error>(Motion::Still),
        moved ==> match first_rule(rules@, item@) {
            None => r == Ok::<Motion, Error>(Motion::Straight),
            Some(i) => match motion_named(rules@[i].kind@, i) {
                Some(m) => r == Ok::<Motion, Error>(m),
                None => r matches Err(e) && e.0@ == "unknown motion path "@ + debug_text(rules@[i].kind@)
                    + " — use \"straight\", \"linear\", \"fall\" or \"lift_carry_drop\""@,
            },
        },
{
    if !moved {
        return Ok(Motion::Still);
    }
    let mut i: usize = 0;
    while i < rules.len()
        invariant
            moved,
            i <= rules.len(),
            first_rule(rules@.take(i as int), item@) is None,
        decreases rules.len() - i,
    {
        proof {
            assert(rules@.take(i + 1).drop_last() =~= rules@.take(i as int));
        }
        if glob_match(rules[i].pattern.as_str(), item) {
            proof {
                lemma_first_rule_prefix(rules@, item@, i as int);
            }
            let kind = rules[i].kind.as_str();
            if str_eq(kind, "straight") {
                return Ok(Motion::Straight);
            } else if str_eq(kind, "linear") {
                return Ok(Motion::Linear);
            } else if str_eq(kind, "fall") {
                return Ok(Motion::Fall);
            } else if str_eq(kind, "lift_carry_drop") {
                return Ok(Motion::LiftCarryDrop(i));
            } else {
                let m = append(owned("unknown motion path "), debug_quoted(kind).as_str());
                return Err(Error(append(m, " — use \"straight\", \"linear\", \"fall\" or \"lift_carry_drop\"")));
            }
        }
        i += 1;
    }
    proof {
        assert(rules@.take(rules.len() as int) =~= rules@);
    }
    Ok(Motion::Straight)
}

/// Once a prefix has no matching rule and the next rule matches, that rule is
/// the first match of the whole list.
proof fn lemma_first_rule_prefix(rules: Seq<MotionRule>, item: Seq<char>, i: int)
    requires
        0 <= i < rules.len(),
        first_rule(rules.take(i), item) is None,
        glob_accepts(rules[i].pattern@, item),
    ensures
        first_rule(rules, item) == Some(i),
{
    lemma_first_rule_extends(rules, item, i, rules.len() as int);
    assert(rules.take(rules.len() as int) =~= rules);
}

/// A first match found in a prefix stays the first match of every longer
/// prefix.
proof fn lemma_first_rule_extends(rules: Seq<MotionRule>, item: Seq<char>, i: int, n: int)
    requires
        0 <= i < n <= rules.len(),
        first_rule(rules.take(i), item) is None,
        glob_accepts(rules[i].pattern@, item),
    ensures
        first_rule(rules.take(n), item) == Some(i),
    decreases n - i,
{
    if n == i + 1 {
        assert(rules.take(n).drop_last() =~= rules.take(i));
    } else {
        lemma_first_rule_extends(rules, item, i, n - 1);
        assert(rules.take(n).drop_last() =~= rules.take(n - 1));
    }
    if n == rules.len() {
        assert(rules.take(n) =~= rules);
    }
}


/// Names joined by `", "`, as a list reads in a message.
pub open spec fn joined(names: Seq<Seq<char>>) -> Seq<char>
    decreases names.len(),
{
    if names.len() == 0 {
        Seq::empty()
    } else if names.len() == 1 {
        names[0]
    } else {
        joined(names.drop_last()) + ", "@ + names.last()
    }
}

/// The characters of each name.
pub open spec fn name_views(names: Seq<String>) -> Seq<Seq<char>> {
    names.map_values(|n: String| n@)
}

/// The names joined by `", "`.
pub fn join_names(names: &Vec<String>) -> (r: String)
    ensures
        r@ == joined(name_views(names@)),
{
    let ghost views = name_views(names@);
    let mut r = owned("");
    proof {
        reveal_strlit("");
        assert(views.take(0) =~= Seq::<Seq<char>>::empty());
    }
    let mut i: usize = 0;
    while i < names.len()
        invariant
            views == name_views(names@),
            i <= names.len(),
            r@ == joined(views.take(i as int)),
        decreases names.len() - i,
    {
        proof {
            assert(views.take(i + 1).drop_last() =~= views.take(i as int));
            reveal_strlit(", ");
        }
        if i == 0 {
            r = append(r, names[i].as_str());
            proof {
                assert(r@ =~= joined(views.take(1)));
            }
        } else {
            r = append(r, ", ");
            r = append(r, names[i].as_str());
            proof {
                assert(r@ =~= joined(views.take(i + 1)));
            }
        }
        i += 1;
    }
    proof {
        assert(views.take(names.len() as int) =~= views);
    }
    r
}

/// Whether `item` is one of `names`.
pub open spec fn named_in(item: Seq<char>, names: Seq<String>) -> bool {
    exists|k: int| 0 <= k < names.len() && names[k]@ == item
}

/// Whether `item` is one of `names`.
pub fn is_named_in(item: &str, names: &Vec<String>) -> (r: bool)
    ensures
        r == named_in(item@, names@),
{
    let mut k: usize = 0;
    while k < names.len()
        invariant
            k <= names.len(),
            forall|k2: int| 0 <= k2 < k ==> names@[k2]@ != item@,
        decreases names.len() - k,
    {
        if str_eq(names[k].as_str(), item) {
            return true;
        }
        k += 1;
    }
    false
}

/// What a camera aimed by name frames: with no names, the whole canvas
/// (`None`); otherwise the positions of the shapes that bear one of the
/// names, in scene order. A camera aimed at names no shape bears is an
/// error, not a wide shot.
pub fn focus_targets(shapes: &Vec<ShapeKey>, names: &Vec<String>) -> (r: Result<Option<Vec<usize>>, Error>)
    ensures
        names.len() == 0 ==> r matches Ok(None),
        names.len() > 0 ==> match r {
            Ok(Some(found)) => {
                &&& found.len() > 0
                &&& forall|a: int, b: int| 0 <= a < b < found.len() ==> found[a] < found[b]
                &&& forall|a: int| 0 <= a < found.len() ==> found[a] < shapes.len()
                &&& forall|j: int| 0 <= j < shapes.len() ==> (named_in(shapes[j].item@, names@)
                    <==> exists|a: int| 0 <= a < found.len() && found[a] == j)
            },
            Ok(None) => false,
            Err(e) => {
                &&& forall|j: int| 0 <= j < shapes.len() ==> !named_in(#[trigger] shapes[j].item@, names@)
                &&& e.0@ == "focus("@ + joined(name_views(names@)) + ") — no shape by that name in this scene"@
            },
        },
{
    if names.len() == 0 {
        return Ok(None);
    }
    let mut found: Vec<usize> = Vec::new();
    let mut j: usize = 0;
    while j < shapes.len()
        invariant
            j <= shapes.len(),
            forall|a: int, b: int| 0 <= a < b < found.len() ==> found[a] < found[b],
            forall|a: int| 0 <= a < found.len() ==> found[a] < j,
            forall|j2: int| 0 <= j2 < j ==> (named_in(shapes[j2].item@, names@)
                <==> exists|a: int| 0 <= a < found.len() && found[a] == j2),
        decreases shapes.len() - j,
    {
        if is_named_in(shapes[j].item.as_str(), names) {
            let ghost before = found@;
            found.push(j);
            proof {
                assert forall|j2: int| 0 <= j2 < j + 1 implies (named_in(shapes[j2].item@, names@)
                    <==> exists|a: int| 0 <= a < found.len() && found[a] == j2) by {
                    if j2 < j {
                        if named_in(shapes[j2].item@, names@) {
                            let a = choose|a: int| 0 <= a < before.len() && before[a] == j2;
                            assert(found[a] == j2);
                        }
                        if exists|a: int| 0 <= a < found.len() && found[a] == j2 {
                            let a = choose|a: int| 0 <= a < found.len() && found[a] == j2;
                            assert(a < before.len());
                            assert(before[a] == j2);
                        }
                    } else {
                        assert(found[found.len() - 1] == j2);
                    }
                }
            }
        }
        j += 1;
    }
    if found.len() == 0 {
        let m = append(owned("focus("), join_names(names).as_str());
        return Err(Error(append(m, ") — no shape by that name in this scene")));
    }
    Ok(Some(found))
}

/// Whether the shape named `item` belongs to the overlay: its name starts
/// with one of the `fixed` prefixes, so the camera leaves it where it was put.
pub fn is_overlay(item: &str, fixed: &Vec<String>) -> (r: bool)
    ensures
        r == exists|k: int| 0 <= k < fixed.len() && starts_with(item@, #[trigger] fixed@[k]@),
{
    let mut k: usize = 0;
    while k < fixed.len()
        invariant
            k <= fixed.len(),
            forall|k2: int| 0 <= k2 < k ==> !starts_with(item@, #[trigger] fixed@[k2]@),
        decreases fixed.len() - k,
    {
        if str_starts_with(item, fixed[k].as_str()) {
            return true;
        }
        k += 1;
    }
    false
}

/// The kind of picture a file holds, told by its first bytes.
pub open spec fn looks_like_png(b: Seq<u8>) -> bool {
    b.len() >= 4 && b[0] == 0x89 && b[1] == 0x50 && b[2] == 0x4E && b[3] == 0x47
}

/// A JPEG starts with the bytes `FF D8`.
pub open spec fn looks_like_jpeg(b: Seq<u8>) -> bool {
    b.len() >= 2 && b[0] == 0xFF && b[1] == 0xD8
}

/// Decode the picture read from `file`, told apart by content rather than by
/// extension: a PNG by its signature, a JPEG by its start-of-image marker.
/// Anything else, and any picture the decoder refuses, is an error that names
/// the file. A JPEG's size comes from its header; its pixel values are
/// promised only as far as the decoder's result can be, since they differ
/// between machines.
pub fn decode_image(file: &str, bytes: &[u8]) -> (r: Result<Pixels, Error>)
    ensures
        looks_like_png(bytes@) ==> match png_refusal(bytes@) {
            Some(m) => r matches Err(e) && e.0@ == "could not read the image "@ + debug_text(file@) + ": "@ + m,
            None => r matches Ok(px) && png_pixels(bytes@, px),
        },
        !looks_like_png(bytes@) && looks_like_jpeg(bytes@) ==> match r {
            Ok(px) => jpeg_frame_refusal(jpeg_header(bytes@)) is None && jpeg_decoded_as(jpeg_header(bytes@), px),
            Err(e) => exists|m: Seq<char>| e.0@ == "could not read the image "@ + debug_text(file@) + ": "@ + m,
        },
        !looks_like_png(bytes@) && looks_like_jpeg(bytes@) && jpeg_frame_refusal(jpeg_header(bytes@)) is Some
            ==> r is Err,
        !looks_like_png(bytes@) && looks_like_jpeg(bytes@) && jpeg_header(bytes@) is Some ==> match jpeg_frame_refusal(
            jpeg_header(bytes@),
        ) {
            None => r is Ok,
            Some(m) => r matches Err(e) && e.0@ == "could not read the image "@ + debug_text(file@) + ": "@ + m,
        },
        !looks_like_png(bytes@) && !looks_like_jpeg(bytes@) ==> (r matches Err(e) && e.0@ == debug_text(file@)
            + " is not a PNG or a JPEG — those are the two Codimate reads"@),
{
    let decoded = if bytes.len() >= 4 && bytes[0] == 0x89 && bytes[1] == 0x50 && bytes[2] == 0x4E && bytes[3] == 0x47 {
        decode_png(bytes)
    } else if bytes.len() >= 2 && bytes[0] == 0xFF && bytes[1] == 0xD8 {
        decode_jpeg(bytes)
    } else {
        let m = append(debug_quoted(file), " is not a PNG or a JPEG — those are the two Codimate reads");
        return Err(Error(m));
    };
    match decoded {
        Ok(p) => Ok(p),
        Err(m) => {
            let e = append(owned("could not read the image "), debug_quoted(file).as_str());
            let e = append(e, ": ");
            Err(Error(append(e, m.as_str())))
        },
    }
}

} // verus!
