use node_graph::catalog::{
    catalog_choice, catalog_scroll_child, filtered_catalog_entries, filtered_catalog_indices, item_matches_query,
    text_contains, CatalogOrigin, CatalogPort, NodeCatalogItem, NodeTypeBuilder,
    NodeTypeRegistry, RegistryError,
};
use node_graph::graph_core::{PortDirection, PortType};

#[derive(Clone, Debug, PartialEq)]
struct Kind;
impl PortType for Kind {
    fn spec_compatible(_: &Self, _: &Self) -> bool {
        true
    }
    fn compatible(_: &Self, _: &Self) -> bool {
        true
    }
}

/// A kind that only connects to itself.
#[derive(Clone, Debug, PartialEq)]
enum Typed {
    Number,
    Text,
}
impl PortType for Typed {
    fn spec_compatible(a: &Self, b: &Self) -> bool {
        a == b
    }
    fn compatible(a: &Self, b: &Self) -> bool {
        a == b
    }
}

fn port<T>(id: &str, label: &str, direction: PortDirection, kind: T) -> CatalogPort<T> {
    CatalogPort {
        id: id.into(),
        label: label.into(),
        direction,
        kind,
    }
}

fn item<T>(id: &str, label: &str, category: &str, ports: Vec<CatalogPort<T>>) -> NodeCatalogItem<T> {
    NodeCatalogItem {
        id: id.into(),
        label: label.into(),
        category: category.into(),
        description: String::new(),
        keywords: Vec::new(),
        ports,
    }
}

/// A draft started from an output port of kind `Kind`.
fn from_out() -> CatalogOrigin<Kind> {
    CatalogOrigin {
        direction: PortDirection::Output,
        kind: Kind,
    }
}

#[test]
fn catalog_filters_search_and_draft_compatibility() {
    let catalog = vec![
        NodeCatalogItem {
            id: "sink".into(),
            label: "Number Sink".into(),
            category: "Output".into(),
            description: "Consumes values".into(),
            keywords: vec!["final".into()],
            ports: vec![port("value", "Value", PortDirection::Input, Kind)],
        },
        NodeCatalogItem {
            id: "source".into(),
            label: "Source".into(),
            category: "Input".into(),
            description: String::new(),
            keywords: Vec::new(),
            ports: vec![port("value", "Value", PortDirection::Output, Kind)],
        },
    ];
    let origin = from_out();
    assert_eq!(filtered_catalog_indices(&catalog, "final", Some(&origin)), vec![0]);
    // Draft menus select the compatible pin even when the node only has one.
    assert_eq!(
        filtered_catalog_entries(&catalog, "final", Some(&origin)),
        vec![(0, Some(0))]
    );
    assert!(filtered_catalog_indices(&catalog, "source", Some(&origin)).is_empty());
}

#[test]
fn draft_catalog_expands_every_compatible_port() {
    let catalog = vec![item(
        "multi",
        "Multi Sink",
        "Output",
        vec![
            port("left", "Left", PortDirection::Input, Kind),
            port("right", "Right", PortDirection::Input, Kind),
        ],
    )];
    let origin = from_out();
    assert_eq!(
        filtered_catalog_entries(&catalog, "", Some(&origin)),
        vec![(0, Some(0)), (0, Some(1))]
    );
    let choice = catalog_choice(&catalog, 0, Some(1), Some(&origin)).unwrap();
    assert_eq!(choice.item_id, "multi");
    assert_eq!(choice.connect_to.as_deref(), Some("right"));
    assert_eq!(choice.connect_direction, Some(PortDirection::Output));
}

#[test]
fn catalog_creation_metadata_uses_the_draft_origin_direction() {
    let catalog = vec![item(
        "source",
        "Source",
        "Input",
        vec![port("value", "Value", PortDirection::Output, Kind)],
    )];
    // The draft started at the input port "in".
    let origin = CatalogOrigin {
        direction: PortDirection::Input,
        kind: Kind,
    };
    let choice = catalog_choice(&catalog, 0, Some(0), Some(&origin)).unwrap();
    assert_eq!(choice.connect_to.as_deref(), Some("value"));
    assert_eq!(choice.connect_direction, Some(PortDirection::Input));
}

#[test]
fn draft_catalog_rejects_an_explicit_incompatible_pin() {
    let catalog = vec![item(
        "mixed",
        "Mixed",
        "Utility",
        vec![
            port("input", "Input", PortDirection::Input, Kind),
            port("output", "Output", PortDirection::Output, Kind),
        ],
    )];
    assert!(catalog_choice(&catalog, 0, Some(1), Some(&from_out())).is_none());
    assert!(catalog_choice(&catalog, 0, Some(0), Some(&from_out())).is_some());
}

#[test]
fn node_type_registry_preserves_catalog_and_static_port_order() {
    let definition = NodeTypeBuilder::<Kind>::new("math".into(), "Math".into())
        .category("Core".into())
        .input("left".into(), "Left".into(), Kind)
        .output("result".into(), "Result".into(), Kind)
        .build()
        .unwrap();
    let mut registry = NodeTypeRegistry::new();
    registry.register(definition).unwrap();
    let catalog = registry.catalog();
    assert_eq!(catalog.len(), 1);
    assert_eq!(catalog[0].id, "math");
    assert_eq!(
        catalog[0]
            .ports
            .iter()
            .map(|port| port.id.as_str())
            .collect::<Vec<_>>(),
        ["left", "result"]
    );
    assert!(matches!(
        registry.register(
            NodeTypeBuilder::<Kind>::new("math".into(), "Again".into())
                .build()
                .unwrap()
        ),
        Err(RegistryError::DuplicateNodeType(_))
    ));
}

#[test]
fn builder_refuses_empty_and_repeated_port_keys() {
    let empty = NodeTypeBuilder::<Kind>::new("a".into(), "A".into())
        .input("x".into(), "X".into(), Kind)
        .output("".into(), "Blank".into(), Kind)
        .build();
    assert_eq!(
        empty.err(),
        Some(RegistryError::EmptyPortKey {
            node_type: "a".into()
        })
    );
    let repeated = NodeTypeBuilder::<Kind>::new("b".into(), "B".into())
        .input("x".into(), "X".into(), Kind)
        .output("y".into(), "Y".into(), Kind)
        .output("x".into(), "Again".into(), Kind)
        .input("".into(), "Late".into(), Kind)
        .build();
    assert_eq!(
        repeated.err(),
        Some(RegistryError::DuplicatePortKey {
            node_type: "b".into(),
            key: "x".into()
        })
    );
}

#[test]
fn registry_lookup_and_order() {
    let mut registry = NodeTypeRegistry::new();
    for id in ["b", "a", "c"] {
        registry
            .register(
                NodeTypeBuilder::<Kind>::new(id.into(), id.to_uppercase())
                    .build()
                    .unwrap(),
            )
            .unwrap();
    }
    assert_eq!(
        registry
            .catalog()
            .iter()
            .map(|item| item.id.as_str())
            .collect::<Vec<_>>(),
        ["b", "a", "c"]
    );
    assert_eq!(registry.get("a").unwrap().item.label, "A");
    assert!(registry.get("z").is_none());
}

#[test]
fn search_is_case_insensitive_over_every_text_field() {
    let mut entry = item::<Kind>("id", "Number Sink", "Output", Vec::new());
    entry.description = "Consumes values".into();
    entry.keywords = vec!["Final".into()];
    assert!(item_matches_query(&entry, ""));
    assert!(item_matches_query(&entry, "sink"));
    assert!(item_matches_query(&entry, "OUT"));
    assert!(item_matches_query(&entry, "values"));
    assert!(item_matches_query(&entry, "fin"));
    assert!(!item_matches_query(&entry, "source"));
    assert!(text_contains("abc", ""));
    assert!(text_contains("abc", "bc"));
    assert!(!text_contains("abc", "abcd"));
    assert!(!text_contains("abc", "cb"));
}

#[test]
fn typed_pins_follow_the_output_to_input_rule() {
    let catalog = vec![item(
        "convert",
        "Convert",
        "Utility",
        vec![
            port("n", "N", PortDirection::Input, Typed::Number),
            port("t", "T", PortDirection::Input, Typed::Text),
            port("o", "O", PortDirection::Output, Typed::Number),
        ],
    )];
    let from_text_output = CatalogOrigin {
        direction: PortDirection::Output,
        kind: Typed::Text,
    };
    assert_eq!(
        filtered_catalog_entries(&catalog, "", Some(&from_text_output)),
        vec![(0, Some(1))]
    );
    let from_number_input = CatalogOrigin {
        direction: PortDirection::Input,
        kind: Typed::Number,
    };
    assert_eq!(
        filtered_catalog_entries(&catalog, "", Some(&from_number_input)),
        vec![(0, Some(2))]
    );
    assert_eq!(filtered_catalog_entries(&catalog, "", None), vec![(0, None)]);
    assert!(catalog_choice(&catalog, 0, Some(0), None).is_none());
    assert_eq!(
        catalog_choice(&catalog, 0, None, None).unwrap().connect_to,
        None
    );
    assert!(catalog_choice(&catalog, 1, None, None).is_none());
}

#[test]
fn scroll_target_counts_category_headers_and_rows() {
    let catalog = vec![
        item("add", "Add", "Math", vec![port("a", "A", PortDirection::Input, Kind)]),
        item("mul", "Multiply", "Math", vec![port("a", "A", PortDirection::Input, Kind)]),
        item("text", "Text", "Text", vec![port("a", "A", PortDirection::Input, Kind)]),
    ];
    // Header, add, multiply, header, text.
    assert_eq!(catalog_scroll_child(&catalog, "", None, 0), Some(1));
    assert_eq!(catalog_scroll_child(&catalog, "", None, 1), Some(2));
    assert_eq!(catalog_scroll_child(&catalog, "", None, 2), Some(4));
    assert_eq!(catalog_scroll_child(&catalog, "", None, 3), None);
    // Only "Multiply" matches: header, multiply.
    assert_eq!(catalog_scroll_child(&catalog, "mul", None, 0), Some(1));
    assert_eq!(catalog_scroll_child(&catalog, "mul", None, 1), None);
}

#[test]
fn scroll_target_during_a_draft_skips_entry_labels() {
    let catalog = vec![
        item(
            "pair",
            "Pair",
            "Math",
            vec![
                port("a", "A", PortDirection::Input, Kind),
                port("b", "B", PortDirection::Input, Kind),
            ],
        ),
        item("emit", "Emit", "Math", vec![port("o", "O", PortDirection::Output, Kind)]),
        item("sink", "Sink", "Out", vec![port("v", "V", PortDirection::Input, Kind)]),
    ];
    let origin = from_out();
    // Header, pair label, pin a, pin b, header, sink label, pin v.
    assert_eq!(catalog_scroll_child(&catalog, "", Some(&origin), 0), Some(2));
    assert_eq!(catalog_scroll_child(&catalog, "", Some(&origin), 1), Some(3));
    assert_eq!(catalog_scroll_child(&catalog, "", Some(&origin), 2), Some(6));
    assert_eq!(catalog_scroll_child(&catalog, "", Some(&origin), 3), None);
}
