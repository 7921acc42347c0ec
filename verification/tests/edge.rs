use metro_map_editor::models::{
    Edge,
    EdgeID,
    GridNode,
    IDManager,
    LineID,
    StationID,
};

fn edge_between(a: u64, b: u64) -> Edge {
    let mut ids = IDManager::new();
    Edge::new(StationID(a), StationID(b), None, &mut ids)
}

#[test]
fn new_edges_take_consecutive_ids() {
    let mut ids = IDManager::new();
    let first = Edge::new(StationID(1), StationID(2), None, &mut ids);
    let second = Edge::new(StationID(2), StationID(3), None, &mut ids);
    assert_eq!(u64::from(second.get_id()), u64::from(first.get_id()) + 1);
    let given = Edge::new(StationID(1), StationID(3), Some(EdgeID(40)), &mut ids);
    assert_eq!(given.get_id(), EdgeID(40));
    let after = Edge::new(StationID(3), StationID(4), None, &mut ids);
    assert_eq!(u64::from(after.get_id()), u64::from(second.get_id()) + 1);
}

#[test]
fn opposite_end() {
    let edge = edge_between(1, 2);
    assert_eq!(edge.opposite(StationID(1)), Some(StationID(2)));
    assert_eq!(edge.opposite(StationID(2)), Some(StationID(1)));
    assert_eq!(edge.opposite(StationID(3)), None);
    assert!(edge.is_from(StationID(1)) && edge.is_to(StationID(2)));
}

#[test]
fn lines_are_kept_sorted_and_once() {
    let mut edge = edge_between(1, 2);
    edge.add_line(LineID(5));
    edge.add_line(LineID(2));
    edge.add_line(LineID(9));
    edge.add_line(LineID(5));
    assert_eq!(edge.get_lines(), &[LineID(2), LineID(5), LineID(9)]);
    edge.remove_line(LineID(5));
    assert_eq!(edge.get_lines(), &[LineID(2), LineID(9)]);
    edge.remove_line(LineID(7));
    assert_eq!(edge.get_lines(), &[LineID(2), LineID(9)]);
    edge.set_lines(vec![LineID(3), LineID(1), LineID(2)]);
    assert_eq!(edge.get_lines(), &[LineID(1), LineID(2), LineID(3)]);
}

#[test]
fn edge_ends_of_the_nodes() {
    let mut edge = edge_between(1, 2);
    assert!(edge.get_edge_ends().is_empty());
    edge.set_nodes(vec![GridNode::new(0, 0), GridNode::new(0, 1)]);
    assert_eq!(edge.get_edge_ends(), vec![GridNode::new(0, 0), GridNode::new(0, 1)]);
    edge.set_nodes(vec![GridNode::new(0, 0), GridNode::new(0, 1), GridNode::new(0, 2)]);
    assert_eq!(edge.get_edge_ends(), vec![GridNode::new(0, 0), GridNode::new(0, 2)]);
}

#[test]
fn edge_flags() {
    let mut edge = edge_between(1, 2);
    assert!(!edge.is_settled() && !edge.is_locked() && !edge.is_selected());
    edge.lock();
    assert!(edge.is_locked());
    assert!(edge.is_settled());
    edge.unlock();
    edge.settle();
    assert!(edge.is_settled());
    edge.unsettle();
    assert!(!edge.is_settled());
    edge.select();
    assert!(edge.is_selected());
    edge.deselect();
    assert!(!edge.is_selected());
}

#[test]
fn contracted_stations() {
    let mut edge = edge_between(1, 2);
    edge.add_contracted_station(StationID(7));
    edge.extend_contracted_stations(&[StationID(8), StationID(9)]);
    assert_eq!(
        edge.get_contracted_stations(),
        &[StationID(7), StationID(8), StationID(9)]
    );
    edge.clear_contracted_stations();
    assert!(edge.get_contracted_stations().is_empty());
}

#[test]
fn removing_a_line_undoes_adding_it() {
    let mut edge = edge_between(1, 2);
    edge.add_line(LineID(2));
    edge.add_line(LineID(9));
    let before = edge.get_lines().to_vec();
    edge.add_line(LineID(5));
    let once = edge.get_lines().to_vec();
    edge.add_line(LineID(5));
    assert_eq!(edge.get_lines(), once.as_slice());
    assert_eq!(edge.get_lines(), &[LineID(2), LineID(5), LineID(9)]);
    edge.remove_line(LineID(5));
    assert_eq!(edge.get_lines(), before.as_slice());
}
