use layout::ast::DotString;
use layout::base::Orientation;
use layout::builder::AttrMap;
use layout::builder::NodeShapeKind;
use layout::dag::NodeHandle;
use layout::placer::NodeAttachInfo;
use layout::builder::parse_usize;
use layout::builder::GraphBuilder;
use layout::color::Color;
use layout::parser::DotParser;
use layout::placer::BK;
use layout::shapes::Arrow;
use layout::shapes::LineEndKind;

#[test]
fn edge_crossing() {
    /*  X  */
    assert!(BK::are_edges_crossing((0, 10), (10, 0)));
    /* | | */
    assert!(!BK::are_edges_crossing((0, 0), (10, 10)));
    /* \ \ */
    assert!(!BK::are_edges_crossing((10, 0), (13, 3)));
    /*  X  */
    assert!(BK::are_edges_crossing((10, 0), (0, 10)));
    /*  /\  */
    assert!(BK::are_edges_crossing((0, 10), (13, 10)));
    /*  /  \  */
    assert!(!BK::are_edges_crossing((0, 10), (13, 11)));
}

#[test]
fn orientation_flip_round_trip() {
    // Flipping the orientation twice gives the original orientation back.
    assert!(Orientation::TopToBottom.flip().flip().is_top_to_bottom());
    assert!(Orientation::LeftToRight.flip().flip().is_left_right());
}

#[test]
fn arrow_reverse_swaps_ends_and_ports() {
    let arrow = Arrow::new(
        LineEndKind::Flat,
        LineEndKind::Arrow,
        layout::style::LineStyleKind::Normal,
        "lbl",
        &layout::style::StyleAttr::simple(),
        &Some("p0".to_string()),
        &Some("p1".to_string()),
    );
    let rev = arrow.reverse();
    assert!(matches!(rev.start, LineEndKind::Arrow));
    assert!(matches!(rev.end, LineEndKind::Flat));
    assert_eq!(rev.src_port.as_deref(), Some("p1"));
    assert_eq!(rev.dst_port.as_deref(), Some("p0"));
    let back = rev.reverse();
    assert!(matches!(back.start, LineEndKind::Flat));
    assert_eq!(back.src_port.as_deref(), Some("p0"));
}

#[test]
fn known_colors_resolve_and_unknown_falls_back_to_black() {
    assert_eq!(Color::fast("white").rgba, 0xffffffff);
    assert_eq!(Color::fast("red").rgba, 0xff0000ff);
    assert_eq!(Color::fast("no-such-color").rgba, 0x000000ff);
}

#[test]
fn parse_usize_accepts_digits_and_rejects_junk() {
    assert_eq!(parse_usize("14"), Some(14));
    assert_eq!(parse_usize("+7"), Some(7));
    assert_eq!(parse_usize(""), None);
    assert_eq!(parse_usize("1.5"), None);
    assert_eq!(parse_usize("x"), None);
}

#[test]
fn builder_collects_nodes_and_edges_in_order() {
    let mut parser = DotParser::new("digraph { rankdir=LR; a -> b -> c; a -> c }");
    let g = parser.process().unwrap();
    let mut gb = GraphBuilder::new();
    gb.visit_graph(&g);
    let names: Vec<&str> = gb.node_order.iter().map(|s| s.as_str()).collect();
    assert_eq!(names, vec!["a", "b", "c"]);
    assert_eq!(gb.edges.len(), 3);
    assert_eq!(gb.edges[0].from, "a");
    assert_eq!(gb.edges[0].to, "b");
    assert_eq!(gb.edges[1].from, "b");
    assert_eq!(gb.edges[1].to, "c");
    assert!(gb.edges[0].is_directed);
    // The graph-level rankdir attribute is kept for the orientation choice.
    match gb.global_state.get("rankdir") {
        Some(layout::ast::DotString::Plain(v)) => assert_eq!(v, "LR"),
        _ => panic!(),
    }
}

#[test]
fn builder_applies_edge_label() {
    let mut parser = DotParser::new("digraph { a -> b [label=\"x\"] }");
    let g = parser.process().unwrap();
    let mut gb = GraphBuilder::new();
    gb.visit_graph(&g);
    assert_eq!(gb.edges.len(), 1);
    let arrow = GraphBuilder::get_arrow_from_attributes(
        &gb.edges[0].props,
        gb.edges[0].is_directed,
        None,
        None,
    );
    assert_eq!(arrow.text, "x");
    assert!(matches!(arrow.end, LineEndKind::Arrow));
    assert!(matches!(arrow.start, LineEndKind::Flat));
}

#[test]
fn test_extract_verticals() {
    let mut ai = NodeAttachInfo::new(6);
    ai.add(NodeHandle::new(0), NodeHandle::new(1));
    ai.add(NodeHandle::new(1), NodeHandle::new(2));
    ai.add(NodeHandle::new(2), NodeHandle::new(3));
    ai.add(NodeHandle::new(4), NodeHandle::new(5));

    let verticals = ai.get_verticals();

    assert_eq!(verticals.len(), 2);
    assert_eq!(verticals[0][0].get_index(), 0);
    assert_eq!(verticals[0][1].get_index(), 1);
    assert_eq!(verticals[0][2].get_index(), 2);
    assert_eq!(verticals[0][3].get_index(), 3);
    assert_eq!(verticals[1][0].get_index(), 4);
    assert_eq!(verticals[1][1].get_index(), 5);
}

#[test]
fn shape_desc_reads_the_attribute_table() {
    // A record declaration with a port cell: drawn as a record, rounded
    // for the Mrecord variant, with the declared fill and font size.
    let mut lst = AttrMap::new();
    lst.insert(
        &"shape".to_string(),
        &DotString::Plain("Mrecord".to_string()),
    );
    lst.insert(
        &"label".to_string(),
        &DotString::Plain("<p0> f0 | <p1> f1".to_string()),
    );
    lst.insert(&"style".to_string(), &DotString::Plain("filled".to_string()));
    lst.insert(&"fontsize".to_string(), &DotString::Plain("21".to_string()));
    let desc = GraphBuilder::get_shape_desc_from_attributes(&lst, "a");
    assert_eq!(desc.kind, NodeShapeKind::Record);
    assert!(desc.record.is_some());
    assert_eq!(desc.rounded, 15);
    assert_eq!(desc.fill_color, "lightgray");
    assert_eq!(desc.font_size, 21);
    assert!(!desc.make_xy_same);

    // No shape attribute: a circle named after the node, black on white.
    let empty = AttrMap::new();
    let desc = GraphBuilder::get_shape_desc_from_attributes(&empty, "n7");
    assert_eq!(desc.kind, NodeShapeKind::Circle);
    assert_eq!(desc.label, "n7");
    assert_eq!(desc.edge_color, "black");
    assert_eq!(desc.fill_color, "white");
    assert_eq!(desc.font_size, 14);
    assert_eq!(desc.line_width, 1);

    // A double circle keeps equal sides; a gradient color is cut.
    let mut lst = AttrMap::new();
    lst.insert(
        &"shape".to_string(),
        &DotString::Plain("doublecircle".to_string()),
    );
    lst.insert(
        &"color".to_string(),
        &DotString::Plain("red:blue".to_string()),
    );
    let desc = GraphBuilder::get_shape_desc_from_attributes(&lst, "b");
    assert_eq!(desc.kind, NodeShapeKind::DoubleCircle);
    assert!(desc.make_xy_same);
    assert_eq!(desc.edge_color, "red");
}
