//! Editor-wide vocabulary and the per-port visual decisions.

use vstd::prelude::*;

verus! {

/// Typed payload for a node dragged from consumer-owned chrome into an editor.
#[derive(Clone, Debug, PartialEq, Eq)]
pub struct NodeDrop {
    pub item_id: String,
}

impl NodeDrop {
    /// A drop of the catalog entry `item_id`.
    pub fn new(item_id: String) -> (r: Self)
        ensures
            r.item_id == item_id,
    {
        NodeDrop { item_id }
    }
}

/// Who owns the ports of a node body: the editor's default overlay, or
/// anchors that the body places itself.
#[derive(Clone, Copy, Debug, PartialEq, Eq, Structural)]
pub enum PortPresentation {
    DefaultOverlay,
    BodyAnchors,
}

impl Default for PortPresentation {
    fn default() -> (r: Self)
        ensures
            r == PortPresentation::DefaultOverlay,
    {
        PortPresentation::DefaultOverlay
    }
}

/// Whether gesture previews are committed locally or rolled back and
/// requested from the host as one transaction.
#[derive(Clone, Copy, Debug, PartialEq, Eq, Structural)]
pub enum MutationMode {
    Uncontrolled,
    Controlled,
}

impl Default for MutationMode {
    fn default() -> (r: Self)
        ensures
            r == MutationMode::Uncontrolled,
    {
        MutationMode::Uncontrolled
    }
}

/// Visual state of one port while the editor may be drafting a connection.
#[derive(Clone, Copy, Debug, Default, PartialEq, Eq, Structural)]
pub struct WorldPortVisualState {
    pub connected: bool,
    pub source: bool,
    pub snap: bool,
    pub compatible: bool,
    pub incompatible: bool,
}

/// The visual state of a port: during a draft, a port that is neither the
/// draft's origin, nor its snap target, nor a compatible target is shown as
/// incompatible.
pub fn port_visual_state(
    connected: bool,
    draft_active: bool,
    source: bool,
    snap: bool,
    compatible: bool,
) -> (r: WorldPortVisualState)
    ensures
        r == (WorldPortVisualState {
            connected,
            source,
            snap,
            compatible,
            incompatible: draft_active && !(source || snap || compatible),
        }),
{
    WorldPortVisualState {
        connected,
        source,
        snap,
        compatible,
        incompatible: draft_active && !(source || snap || compatible),
    }
}

/// Which themed socket color a port is painted with.
#[derive(Clone, Copy, Debug, PartialEq, Eq, Structural)]
pub enum PortColorRole {
    Compatible,
    Connected,
    Idle,
}

/// How a port is painted: the socket color, whether the socket is filled,
/// whether its label uses the compatible color, whether it is dimmed to the
/// incompatible opacity, and whether it glows.
#[derive(Clone, Copy, Debug, PartialEq, Eq, Structural)]
pub struct PortPaintRoles {
    pub color: PortColorRole,
    pub filled: bool,
    pub label_compatible: bool,
    pub dimmed: bool,
    pub glow: bool,
}

/// Highlighted ports (draft origin, snap target, compatible target) take the
/// compatible color and stay at full opacity during a draft; connected ports
/// are filled; the origin and compatible targets glow.
pub fn port_paint_roles(
    connected: bool,
    source: bool,
    snap: bool,
    compatible: bool,
    draft_active: bool,
) -> (r: PortPaintRoles)
    ensures
        ({
            let highlighted = source || snap || compatible;
            r == PortPaintRoles {
                color: if highlighted {
                    PortColorRole::Compatible
                } else if connected {
                    PortColorRole::Connected
                } else {
                    PortColorRole::Idle
                },
                filled: connected || highlighted,
                label_compatible: compatible,
                dimmed: draft_active && !highlighted,
                glow: source || compatible,
            }
        }),
{
    let highlighted = source || snap || compatible;
    PortPaintRoles {
        color: if highlighted {
            PortColorRole::Compatible
        } else if connected {
            PortColorRole::Connected
        } else {
            PortColorRole::Idle
        },
        filled: connected || highlighted,
        label_compatible: compatible,
        dimmed: draft_active && !highlighted,
        glow: source || compatible,
    }
}

/// A port that the visual state marks incompatible is exactly one that the
/// paint dims.
pub proof fn lemma_incompatible_is_dimmed(
    connected: bool,
    draft_active: bool,
    source: bool,
    snap: bool,
    compatible: bool,
)
    ensures
        (WorldPortVisualState {
            connected,
            source,
            snap,
            compatible,
            incompatible: draft_active && !(source || snap || compatible),
        }).incompatible == (PortPaintRoles {
            color: if source || snap || compatible {
                PortColorRole::Compatible
            } else if connected {
                PortColorRole::Connected
            } else {
                PortColorRole::Idle
            },
            filled: connected || source || snap || compatible,
            label_compatible: compatible,
            dimmed: draft_active && !(source || snap || compatible),
            glow: source || compatible,
        }).dimmed,
{
}

} // verus!
