//! Placement vocabulary of node overlays.

use vstd::prelude::*;

verus! {

/// The side of its anchor that an overlay panel opens on.
#[derive(Clone, Copy, Debug, PartialEq, Eq, Structural)]
pub enum OverlaySide {
    Top,
    Right,
    Bottom,
    Left,
}

impl Default for OverlaySide {
    fn default() -> (r: Self)
        ensures
            r == OverlaySide::Right,
    {
        OverlaySide::Right
    }
}

/// Alignment of an overlay panel along its anchor's edge.
#[derive(Clone, Copy, Debug, PartialEq, Eq, Structural)]
pub enum OverlayAlign {
    Start,
    Center,
    End,
}

impl Default for OverlayAlign {
    fn default() -> (r: Self)
        ensures
            r == OverlayAlign::Start,
    {
        OverlayAlign::Start
    }
}

pub open spec fn opposite_side(side: OverlaySide) -> OverlaySide {
    match side {
        OverlaySide::Top => OverlaySide::Bottom,
        OverlaySide::Right => OverlaySide::Left,
        OverlaySide::Bottom => OverlaySide::Top,
        OverlaySide::Left => OverlaySide::Right,
    }
}

/// The side an overlay flips to when it does not fit on its own side.
pub fn opposite_overlay_side(side: OverlaySide) -> (r: OverlaySide)
    ensures
        r == opposite_side(side),
{
    match side {
        OverlaySide::Top => OverlaySide::Bottom,
        OverlaySide::Right => OverlaySide::Left,
        OverlaySide::Bottom => OverlaySide::Top,
        OverlaySide::Left => OverlaySide::Right,
    }
}

/// Flipping twice returns to the starting side, and a flip never keeps the
/// side or moves it to the other axis.
pub proof fn lemma_flip_involution(side: OverlaySide)
    ensures
        opposite_side(opposite_side(side)) == side,
        opposite_side(side) != side,
        (side == OverlaySide::Top || side == OverlaySide::Bottom) <==> (opposite_side(side)
            == OverlaySide::Top || opposite_side(side) == OverlaySide::Bottom),
{
}

} // verus!
