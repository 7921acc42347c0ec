use metro_map_editor::models::{
    encode_grid_node,
    parse_grid_node,
    GridNode,
    GridNodeParseError,
    IntErrorKind,
};

#[test]
fn test_manhattan_distance() {
    let dist = GridNode::from((4, 5)).manhattan_distance_to(GridNode::from((10, 7)));
    assert_eq!(dist, 8);

    let dist = GridNode::from((10, 7)).manhattan_distance_to(GridNode::from((4, 5)));
    assert_eq!(dist, 8);

    let dist = GridNode::from((4, 7)).manhattan_distance_to(GridNode::from((10, 5)));
    assert_eq!(dist, 8);

    let dist = GridNode::from((10, 5)).manhattan_distance_to(GridNode::from((4, 7)));
    assert_eq!(dist, 8);
}

#[test]
fn test_get_neighbors() {
    let neighbors = GridNode::from((4, 5)).get_neighbors();

    assert_eq!(
        neighbors,
        vec![
            GridNode::from((3, 4)),
            GridNode::from((4, 4)),
            GridNode::from((5, 4)),
            GridNode::from((5, 5)),
            GridNode::from((5, 6)),
            GridNode::from((4, 6)),
            GridNode::from((3, 6)),
            GridNode::from((3, 5)),
        ]
    );
}

#[test]
fn manhattan_distance_to_itself_is_zero() {
    let node = GridNode::new(-7, 12);
    assert_eq!(node.manhattan_distance_to(node), 0);
}

#[test]
fn neighbor_check() {
    let node = GridNode::new(0, 0);
    assert!(node.is_neighbor_of(&GridNode::new(1, 1)));
    assert!(node.is_neighbor_of(&GridNode::new(-1, 0)));
    assert!(node.is_neighbor_of(&GridNode::new(0, 0)));
    assert!(!node.is_neighbor_of(&GridNode::new(2, 0)));
    assert!(!GridNode::new(i32::MIN, 0).is_neighbor_of(&GridNode::new(i32::MAX, 0)));
}

#[test]
fn grid_node_text_round_trip() {
    for node in [
        GridNode::new(0, 0),
        GridNode::new(-3, 17),
        GridNode::new(i32::MIN, i32::MAX),
    ] {
        let text = encode_grid_node(node);
        assert_eq!(parse_grid_node(&text), Ok(node));
    }
    assert_eq!(encode_grid_node(GridNode::new(-3, 17)), b"(-3, 17)".to_vec());
}

#[test]
fn grid_node_text_parsing() {
    assert_eq!(parse_grid_node(b"(4, 5)"), Ok(GridNode::new(4, 5)));
    assert_eq!(parse_grid_node(b"4, 5"), Ok(GridNode::new(4, 5)));
    assert_eq!(
        parse_grid_node(b"(4,5)"),
        Err(GridNodeParseError::InvalidX(IntErrorKind::InvalidDigit))
    );
    assert_eq!(parse_grid_node(b"(45)"), Err(GridNodeParseError::MissingY));
    assert_eq!(
        parse_grid_node(b"(-2147483649, 0)"),
        Err(GridNodeParseError::InvalidX(IntErrorKind::NegOverflow))
    );
    assert_eq!(
        parse_grid_node(b"(x, 5)"),
        Err(GridNodeParseError::InvalidX(IntErrorKind::InvalidDigit))
    );
    assert_eq!(
        parse_grid_node(b"(4, 99999999999)"),
        Err(GridNodeParseError::InvalidY(IntErrorKind::PosOverflow))
    );
    assert_eq!(
        parse_grid_node(b"(, 5)"),
        Err(GridNodeParseError::InvalidX(IntErrorKind::Empty))
    );
}
