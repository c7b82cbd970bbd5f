//! Typed, namespaced editor actions that hosts can bind to keystrokes.

use vstd::prelude::*;

verus! {

/// Open the searchable node catalog.
#[derive(Clone, Copy, Debug, Default, PartialEq, Eq, Structural)]
pub struct OpenCatalog;

/// Delete the selected nodes and connections.
#[derive(Clone, Copy, Debug, Default, PartialEq, Eq, Structural)]
pub struct DeleteSelection;

/// Select every node.
#[derive(Clone, Copy, Debug, Default, PartialEq, Eq, Structural)]
pub struct SelectAll;

/// Cycle subway, Bezier and simple routing.
#[derive(Clone, Copy, Debug, Default, PartialEq, Eq, Structural)]
pub struct CycleRouting;

/// Fit the viewport to the graph.
#[derive(Clone, Copy, Debug, Default, PartialEq, Eq, Structural)]
pub struct FitView;

/// Roll back gestures, close menus or clear the selection.
#[derive(Clone, Copy, Debug, Default, PartialEq, Eq, Structural)]
pub struct Cancel;

/// Copy the selected nodes.
#[derive(Clone, Copy, Debug, Default, PartialEq, Eq, Structural)]
pub struct CopySelection;

/// Paste previously copied nodes.
#[derive(Clone, Copy, Debug, Default, PartialEq, Eq, Structural)]
pub struct Paste;

/// Undo the last host transaction.
#[derive(Clone, Copy, Debug, Default, PartialEq, Eq, Structural)]
pub struct Undo;

/// Redo the last undone host transaction.
#[derive(Clone, Copy, Debug, Default, PartialEq, Eq, Structural)]
pub struct Redo;

/// Group the selected nodes.
#[derive(Clone, Copy, Debug, Default, PartialEq, Eq, Structural)]
pub struct GroupSelection;

/// Remove the groups that hold selected nodes.
#[derive(Clone, Copy, Debug, Default, PartialEq, Eq, Structural)]
pub struct UngroupSelection;

/// Align the selected nodes on their left edges.
#[derive(Clone, Copy, Debug, Default, PartialEq, Eq, Structural)]
pub struct AlignLeft;

/// Align the selected nodes on their horizontal centres.
#[derive(Clone, Copy, Debug, Default, PartialEq, Eq, Structural)]
pub struct AlignHorizontalCenter;

/// Align the selected nodes on their right edges.
#[derive(Clone, Copy, Debug, Default, PartialEq, Eq, Structural)]
pub struct AlignRight;

/// Align the selected nodes on their top edges.
#[derive(Clone, Copy, Debug, Default, PartialEq, Eq, Structural)]
pub struct AlignTop;

/// Align the selected nodes on their vertical centres.
#[derive(Clone, Copy, Debug, Default, PartialEq, Eq, Structural)]
pub struct AlignVerticalCenter;

/// Align the selected nodes on their bottom edges.
#[derive(Clone, Copy, Debug, Default, PartialEq, Eq, Structural)]
pub struct AlignBottom;

/// Space the selected nodes evenly along the x axis.
#[derive(Clone, Copy, Debug, Default, PartialEq, Eq, Structural)]
pub struct DistributeHorizontally;

/// Space the selected nodes evenly along the y axis.
#[derive(Clone, Copy, Debug, Default, PartialEq, Eq, Structural)]
pub struct DistributeVertically;

/// Arrange the selected nodes on a grid.
#[derive(Clone, Copy, Debug, Default, PartialEq, Eq, Structural)]
pub struct SmartGrid;

} // verus!
