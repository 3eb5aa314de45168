use sokoban::node::{Node, NodeType, Position};

#[test]
fn test_ordering() {
    let node1 = Node { ntype: NodeType::Empty, position: Position::new(0, 0) };
    let node2 = Node { ntype: NodeType::Wall, position: Position::new(0, 1) };
    let node3 = Node { ntype: NodeType::Empty, position: Position::new(0, 2) };

    assert_eq!(node1 != node2, true);
    assert_eq!(node1 < node2, true);
    assert_eq!(node1 == node3, true);
}

#[test]
fn test_position_equality() {
    let pos1 = Position::new(0, 0);
    let pos2 = Position::new(1, 1);
    let pos3 = Position::new(1, 1);

    assert_eq!(pos1 == pos2, false);
    assert_eq!(pos2 == pos3, true);
}

#[test]
fn test_node_type_build() {
    let ntype = NodeType::build(2).unwrap();
    assert_eq!(ntype, NodeType::Whole);
}

#[test]
fn kinds_of_the_table_of_play() {
    assert_eq!(NodeType::build(0), Ok(NodeType::Empty));
    assert_eq!(NodeType::build(1), Ok(NodeType::Wall));
    assert_eq!(NodeType::build(2), Ok(NodeType::Whole));
    assert_eq!(NodeType::build(3), Ok(NodeType::Box));
    assert_eq!(NodeType::build(4), Ok(NodeType::Player));
    assert_eq!(NodeType::build(5), Ok(NodeType::BoxOnWhole));
    assert_eq!(NodeType::build(6), Ok(NodeType::PlayerOnWhole));
    assert_eq!(NodeType::build(7), Err("No match for NodeType"));
    assert_eq!(NodeType::build(u32::MAX), Err("No match for NodeType"));
}

#[test]
fn kinds_of_the_reversed_table() {
    assert_eq!(NodeType::reverse_build(0), Ok(NodeType::Empty));
    assert_eq!(NodeType::reverse_build(1), Ok(NodeType::Wall));
    assert_eq!(NodeType::reverse_build(2), Ok(NodeType::Box));
    assert_eq!(NodeType::reverse_build(3), Ok(NodeType::Whole));
    assert_eq!(NodeType::reverse_build(4), Ok(NodeType::Player));
    assert_eq!(NodeType::reverse_build(5), Ok(NodeType::BoxOnWhole));
    assert_eq!(NodeType::reverse_build(6), Ok(NodeType::Box));
    assert_eq!(NodeType::reverse_build(7), Err("No match for NodeType"));
}

#[test]
fn kind_predicates() {
    let all = [
        NodeType::Empty,
        NodeType::Wall,
        NodeType::Whole,
        NodeType::Box,
        NodeType::Player,
        NodeType::BoxOnWhole,
        NodeType::PlayerOnWhole,
    ];
    let players: Vec<bool> = all.iter().map(|k| k.is_player()).collect();
    let boxes: Vec<bool> = all.iter().map(|k| k.is_box()).collect();
    let wholes: Vec<bool> = all.iter().map(|k| k.is_whole()).collect();
    let movable: Vec<bool> = all.iter().map(|k| k.can_move()).collect();
    assert_eq!(players, vec![false, false, false, false, true, false, true]);
    assert_eq!(boxes, vec![false, false, false, true, false, true, false]);
    assert_eq!(wholes, vec![false, false, true, false, false, true, true]);
    assert_eq!(movable, vec![true, false, true, false, true, false, true]);
}

#[test]
fn digits_and_glyphs() {
    let all = [
        NodeType::Empty,
        NodeType::Wall,
        NodeType::Whole,
        NodeType::Box,
        NodeType::Player,
        NodeType::BoxOnWhole,
        NodeType::PlayerOnWhole,
    ];
    let digits: Vec<u8> = all.iter().map(|k| k.digit()).collect();
    let glyphs: String = all.iter().map(|k| k.glyph()).collect();
    assert_eq!(digits, vec![0, 1, 2, 3, 4, 5, 6]);
    assert_eq!(glyphs, " #.$@*+");
    for k in all {
        assert_eq!(NodeType::build(k.digit() as u32), Ok(k));
    }
}

#[test]
fn neighbours_in_the_middle() {
    let around = Node::loop_positions(&Position::new(3, 5));
    assert_eq!(
        around,
        vec![
            Position::new(2, 5),
            Position::new(4, 5),
            Position::new(3, 4),
            Position::new(3, 6),
        ]
    );
}

#[test]
fn neighbours_at_the_rim() {
    assert_eq!(
        Node::loop_positions(&Position::new(0, 0)),
        vec![Position::new(1, 0), Position::new(0, 1)]
    );
    assert_eq!(
        Node::loop_positions(&Position::new(0, 2)),
        vec![Position::new(1, 2), Position::new(0, 1), Position::new(0, 3)]
    );
    assert_eq!(
        Node::loop_positions(&Position::new(2, 0)),
        vec![Position::new(1, 0), Position::new(3, 0), Position::new(2, 1)]
    );
}

#[test]
fn nodes_compare_by_kind() {
    let wall = Node { ntype: NodeType::Wall, position: Position::new(0, 0) };
    let goal = Node { ntype: NodeType::Whole, position: Position::new(0, 0) };
    let other_wall = Node { ntype: NodeType::Wall, position: Position::new(7, 7) };
    assert!(wall == other_wall);
    assert!(wall != goal);
    assert!(wall < goal);
    assert!(goal > wall);
    assert!(wall <= other_wall);
    assert!(wall >= other_wall);
    assert_eq!(wall.partial_cmp(&goal), Some(std::cmp::Ordering::Less));
    assert_eq!(goal.partial_cmp(&wall), Some(std::cmp::Ordering::Greater));
    assert_eq!(wall.partial_cmp(&other_wall), Some(std::cmp::Ordering::Equal));
}

#[test]
fn positions_order_by_column_then_row() {
    assert!(Position::new(0, 9) < Position::new(1, 0));
    assert!(Position::new(1, 0) < Position::new(1, 1));
    let p = Position::new(4, 2);
    assert_eq!(p.x, 4);
    assert_eq!(p.y, 2);
}

#[test]
fn cells_and_nodes_as_text() {
    assert_eq!(Position::new(0, 0).render(), "(0, 0)");
    assert_eq!(Position::new(3, 12).render(), "(3, 12)");
    assert_eq!(Position::new(1000, 99).render(), "(1000, 99)");
    assert_eq!(
        Position::new(usize::MAX, 10).render(),
        format!("({}, 10)", usize::MAX)
    );
    let node = Node { ntype: NodeType::Wall, position: Position::new(3, 12) };
    assert_eq!(node.render(), "# | (3, 12)");
    let node = Node { ntype: NodeType::Empty, position: Position::new(0, 7) };
    assert_eq!(node.render(), "  | (0, 7)");
    let node = Node { ntype: NodeType::PlayerOnWhole, position: Position::new(20, 1) };
    assert_eq!(node.render(), "+ | (20, 1)");
}
