//! The shared vocabulary of shapes: named anchor points and text alignment.

use vstd::prelude::*;

verus! {

/// A named point on a shape's boundary, and the point a shape turns and
/// grows around.
#[derive(Clone, Copy, Debug, PartialEq, Eq, Structural)]
pub enum AnchorKind {
    Center,
    Top,
    Bottom,
    Left,
    Right,
}

/// How a label sits on its anchor.
#[derive(Clone, Copy, Debug, PartialEq, Eq, Structural)]
pub enum TextAlign {
    Left,
    Center,
}

} // verus!
