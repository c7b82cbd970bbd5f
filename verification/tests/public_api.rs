use node_graph::actions::{
    AlignBottom, AlignHorizontalCenter, AlignLeft, AlignRight, AlignTop, AlignVerticalCenter,
    Cancel, CopySelection, CycleRouting, DeleteSelection, DistributeHorizontally,
    DistributeVertically, FitView, GroupSelection, OpenCatalog, Paste, Redo, SelectAll,
    SmartGrid, UngroupSelection, Undo,
};
use node_graph::graph_core::{ports_connect, PortDirection, PortType};
use node_graph::windows::WindowCapabilities;

#[derive(Clone, Debug, PartialEq)]
struct Kind;
impl PortType for Kind {
    fn spec_compatible(_: &Self, _: &Self) -> bool {
        true
    }
    fn compatible(_: &Self, _: &Self) -> bool {
        true
    }
}

#[test]
fn native_reports_detached_windows() {
    assert_eq!(WindowCapabilities::current(false).detached_windows, true);
}

#[test]
fn typed_actions_are_public_and_namespaced() {
    let _ = (
        OpenCatalog,
        DeleteSelection,
        SelectAll,
        CycleRouting,
        FitView,
        Cancel,
        CopySelection,
        Paste,
        Undo,
        Redo,
        GroupSelection,
        UngroupSelection,
        AlignLeft,
        AlignHorizontalCenter,
        AlignRight,
        AlignTop,
        AlignVerticalCenter,
        AlignBottom,
        DistributeHorizontally,
        DistributeVertically,
        SmartGrid,
    );
}

#[test]
fn output_to_input_connects_in_either_order() {
    assert!(ports_connect(PortDirection::Output, &Kind, PortDirection::Input, &Kind));
    assert!(ports_connect(PortDirection::Input, &Kind, PortDirection::Output, &Kind));
    assert!(!ports_connect(PortDirection::Input, &Kind, PortDirection::Input, &Kind));
}
