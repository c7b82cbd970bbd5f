//! Enumerated style choices of the editor theme and the decisions that pick
//! among them.

use vstd::prelude::*;

verus! {

/// How a border or separator line is drawn.
#[derive(Clone, Copy, Debug, PartialEq, Eq, Structural)]
pub enum LineStyle {
    /// No line at all (the name `None` is reserved here).
    Hidden,
    Solid,
    Dashed,
}

/// Pointer cursor shown over an editor element.
#[derive(Clone, Copy, Debug, PartialEq, Eq, Structural)]
pub enum Cursor {
    Default,
    Grab,
    Grabbing,
    Crosshair,
    EwResize,
}

/// Controls how a node's inputs and outputs are arranged.
#[derive(Clone, Copy, Debug, PartialEq, Eq, Structural)]
pub enum AnchorLayout {
    Columns,
    Stacked,
}

impl Default for AnchorLayout {
    fn default() -> (r: Self)
        ensures
            r == AnchorLayout::Columns,
    {
        AnchorLayout::Columns
    }
}

/// Shape of a port socket.
#[derive(Clone, Copy, Debug, PartialEq, Eq, Structural)]
pub enum DotShape {
    Circle,
    Diamond,
    Square,
    Hexagon,
    Triangle,
    Star,
}

impl Default for DotShape {
    fn default() -> (r: Self)
        ensures
            r == DotShape::Circle,
    {
        DotShape::Circle
    }
}

/// The cursor of a node body: a resize anywhere in the editor wins over a
/// drag of this node, which wins over the idle cursor.
pub fn resolved_node_cursor(
    idle: Cursor,
    dragging_cursor: Cursor,
    resize_cursor: Cursor,
    dragging: bool,
    any_node_resizing: bool,
) -> (r: Cursor)
    ensures
        r == (if any_node_resizing {
            resize_cursor
        } else if dragging {
            dragging_cursor
        } else {
            idle
        }),
{
    if any_node_resizing {
        resize_cursor
    } else if dragging {
        dragging_cursor
    } else {
        idle
    }
}

} // verus!
