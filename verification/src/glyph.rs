//! What text shaping starts from: the font bytes for a run of text, or the
//! reason there are none.

use vstd::prelude::*;
use crate::fonts::{FontId, FontRegistry, first_with_id};

verus! {

/// Why text could not be shaped into glyph outlines.
#[derive(Debug)]
pub enum GlyphError {
    /// No font data for the given `FontId`.
    NoFont(FontId),
    /// Shaping failed.
    Shaping(String),
    /// Glyph outline extraction failed.
    Outline(String),
}

/// The font-file bytes registered under `id`; empty when no font has it.
pub open spec fn font_bytes(registry: FontRegistry, id: FontId) -> Seq<u8> {
    match first_with_id(registry.fonts(), id) {
        Some(i) => registry.fonts()[i].data@,
        None => Seq::empty(),
    }
}

/// The font bytes to shape `text` with. Empty text needs no font and yields
/// `None`, an empty block; otherwise the font must have data, or shaping is
/// refused with `NoFont`.
pub fn glyph_source<'a>(registry: &'a FontRegistry, text: &str, font_id: FontId) -> (r: Result<Option<&'a [u8]>, GlyphError>)
    ensures
        text@.len() == 0 ==> r matches Ok(None),
        text@.len() > 0 && font_bytes(*registry, font_id).len() > 0 ==> (r matches Ok(Some(d))
            && d@ == font_bytes(*registry, font_id)),
        text@.len() > 0 && font_bytes(*registry, font_id).len() == 0 ==> (r matches Err(GlyphError::NoFont(id))
            && id == font_id),
{
    if text.is_empty() {
        return Ok(None);
    }
    let data = registry.data(font_id);
    if data.len() == 0 {
        return Err(GlyphError::NoFont(font_id));
    }
    Ok(Some(data))
}

} // verus!
