use node_graph::graph_core::PortDirection::{Input, Output};
use node_graph::layout::port_rows;
use node_graph::style::AnchorLayout;

#[test]
fn columns_share_rows_between_directions() {
    let rows = port_rows(AnchorLayout::Columns, &vec![Input, Output, Input, Output, Output]);
    assert_eq!(rows.rows, vec![0, 0, 1, 1, 2]);
    assert_eq!(rows.row_count, 3);
}

#[test]
fn stacked_places_outputs_after_all_inputs() {
    let rows = port_rows(AnchorLayout::Stacked, &vec![Output, Input, Output, Input]);
    assert_eq!(rows.rows, vec![2, 0, 3, 1]);
    assert_eq!(rows.row_count, 4);
}

#[test]
fn no_ports_need_no_rows() {
    let rows = port_rows(AnchorLayout::Columns, &Vec::new());
    assert!(rows.rows.is_empty());
    assert_eq!(rows.row_count, 0);
}
