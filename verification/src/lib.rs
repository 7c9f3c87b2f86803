//! Codimate's decision logic: the parts of the animation engine that work on
//! names, bytes and integers, with their contracts proved.

pub mod text;
pub mod glob;
pub mod pixels;
pub mod codecs;
pub mod scene;
pub mod reconcile;
pub mod colour;
pub mod order;
pub mod builder;
pub mod fonts;
pub mod arrange;
pub mod math;
pub mod glyph;
pub mod preview;
pub mod export;
pub mod runs;
pub mod svg_text;
