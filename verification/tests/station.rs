use metro_map_editor::models::{
    GridNode,
    IDManager,
    Station,
    StationID,
};

#[test]
fn test_new_station() {
    let mut ids = IDManager::new();
    let before_id = ids.next_station_id();

    let first_station = Station::new(GridNode::from((2, 3)), None, &mut ids);
    let second_station = Station::new(
        GridNode::from((2, 3)),
        Some(StationID(u64::from(before_id) + 5)),
        &mut ids,
    );

    let after_id = ids.next_station_id();

    assert_eq!(StationID(u64::from(before_id) + 6), after_id);
    assert_eq!(first_station.get_id(), StationID(u64::from(before_id) + 1));
    assert_eq!(second_station.get_id(), StationID(u64::from(before_id) + 5));
}

#[test]
fn station_edges_are_kept_once() {
    let mut ids = IDManager::new();
    let mut station = Station::new(GridNode::new(0, 0), None, &mut ids);
    let e1 = metro_map_editor::models::EdgeID(7);
    let e2 = metro_map_editor::models::EdgeID(9);
    station.add_edge(e1);
    station.add_edge(e2);
    station.add_edge(e1);
    assert_eq!(station.get_edges(), &[e1, e2]);
    station.remove_edge(e1);
    assert_eq!(station.get_edges(), &[e2]);
    station.clear_edges();
    assert!(station.get_edges().is_empty());
}

#[test]
fn station_settle_and_lock() {
    let mut ids = IDManager::new();
    let mut station = Station::new(GridNode::new(1, 1), None, &mut ids);
    assert!(!station.is_settled());
    station.settle(GridNode::new(4, 4));
    assert!(station.is_settled());
    assert_eq!(station.get_pos(), GridNode::new(4, 4));
    station.unsettle();
    assert!(!station.is_settled());
    station.lock();
    assert!(station.is_locked());
    station.unlock();
    assert!(!station.is_locked());
    assert_eq!(station.get_original_pos(), GridNode::new(1, 1));
}

#[test]
fn station_neighbors() {
    let mut ids = IDManager::new();
    let station = Station::new(GridNode::new(3, 3), None, &mut ids);
    assert!(station.is_neighbor(GridNode::new(2, 4)));
    assert!(!station.is_neighbor(GridNode::new(3, 3)));
    assert!(!station.is_neighbor(GridNode::new(5, 3)));
}
