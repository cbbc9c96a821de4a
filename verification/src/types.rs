use vstd::prelude::*;

verus! {

/// RGBA color.
#[derive(Debug, Clone, Copy, PartialEq, Eq, Structural)]
pub struct Color(pub u8, pub u8, pub u8, pub u8);

/// Font style variant.
#[derive(Debug, Clone, Copy, PartialEq, Eq, Hash, Structural)]
pub enum FontStyle {
    Normal,
    Italic,
    Oblique,
}

/// Typographic variant (subscript / superscript).
#[derive(Debug, Clone, Copy, PartialEq, Eq, Hash, Structural)]
pub enum FontVariant {
    Normal,
    Subscript,
    Superscript,
}

/// Font weight (100–900).
#[derive(Debug, Clone, Copy, PartialEq, Eq, PartialOrd, Ord, Hash, Structural)]
pub struct FontWeight(pub u16);

/// Controls how the bidirectional text algorithm determines the base paragraph direction.
#[derive(Debug, Clone, Copy, PartialEq, Eq, Hash, Structural)]
pub enum BidiMode {
    Auto,
    Ltr,
    Rtl,
}

/// Resolved direction of a run of text.
#[derive(Debug, Clone, Copy, PartialEq, Eq, Structural)]
pub enum Direction {
    Ltr,
    Rtl,
}

impl Direction {
    /// Whether this is the right-to-left direction.
    pub fn is_rtl(&self) -> (r: bool)
        ensures
            r == (*self == Direction::Rtl),
    {
        match self {
            Direction::Rtl => true,
            Direction::Ltr => false,
        }
    }
}

/// The direction that an embedding level stands for: odd levels are
/// right-to-left, even levels left-to-right.
pub open spec fn level_direction(level: u8) -> Direction {
    if level % 2 == 1 {
        Direction::Rtl
    } else {
        Direction::Ltr
    }
}

} // verus!
