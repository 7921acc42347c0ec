use metro_map_editor::models::{
    Edge,
    EdgeID,
    GridNode,
    IDManager,
    Line,
    LineID,
    MetroMap,
    Station,
    StationID,
};

/// Two stations 1 and 2, at (0, 0) and (0, 2), and an edge between them.
fn two_stations(ids: &mut IDManager) -> (MetroMap, EdgeID) {
    let mut map = MetroMap::new();
    map.add_station(Station::new(GridNode::new(0, 0), Some(StationID(1)), ids));
    map.add_station(Station::new(GridNode::new(0, 2), Some(StationID(2)), ids));
    let edge = map.get_edge_id_between(StationID(1), StationID(2), ids);
    (map, edge)
}

#[test]
fn a_station_reads_back_as_written() {
    let mut ids = IDManager::new();
    let mut map = MetroMap::new();
    map.add_station(Station::new(GridNode::new(4, 5), Some(StationID(3)), &mut ids));
    let station = map.get_station(StationID(3)).unwrap();
    assert_eq!(station.get_pos(), GridNode::new(4, 5));
    assert!(map.get_station(StationID(4)).is_none());
    assert_eq!(map.station_at_node(GridNode::new(4, 5)), Some(StationID(3)));
    assert_eq!(map.station_at_node(GridNode::new(5, 5)), None);
}

#[test]
fn adding_an_edge_attaches_it_to_its_stations() {
    let mut ids = IDManager::new();
    let (map, edge) = two_stations(&mut ids);
    assert_eq!(map.get_station(StationID(1)).unwrap().get_edges(), &[edge]);
    assert_eq!(map.get_station(StationID(2)).unwrap().get_edges(), &[edge]);
    assert_eq!(map.get_edge_id_between_if_exists(StationID(2), StationID(1)), Some(edge));
    assert_eq!(map.get_edge_id_between_if_exists(StationID(1), StationID(3)), None);
}

#[test]
fn the_edge_between_two_stations_is_made_once() {
    let mut ids = IDManager::new();
    let (mut map, edge) = two_stations(&mut ids);
    let again = map.get_edge_id_between(StationID(2), StationID(1), &mut ids);
    assert_eq!(again, edge);
    assert_eq!(map.get_edges().len(), 1);
}

#[test]
fn removing_an_edge_detaches_it() {
    let mut ids = IDManager::new();
    let (mut map, edge) = two_stations(&mut ids);
    let mut line = Line::new(None, &mut ids);
    line.add_edge(edge, &mut map);
    map.add_line(line.clone());
    map.remove_edge(edge);
    assert!(map.get_edge(edge).is_none());
    assert!(map.get_station(StationID(1)).unwrap().get_edges().is_empty());
    assert!(map.get_line(line.get_id()).unwrap().get_edges().is_empty());
}

#[test]
fn removed_edge_keeps_edges_other_lines_use() {
    let mut ids = IDManager::new();
    let (mut map, edge) = two_stations(&mut ids);
    let mut first = Line::new(None, &mut ids);
    let mut second = Line::new(None, &mut ids);
    first.add_edge(edge, &mut map);
    second.add_edge(edge, &mut map);
    map.add_line(first.clone());
    map.add_line(second.clone());

    map.removed_edge(edge, first.get_id());
    assert_eq!(map.get_edge(edge).unwrap().get_lines(), &[second.get_id()]);

    map.removed_edge(edge, second.get_id());
    assert_eq!(map.get_edge(edge).unwrap().get_lines(), &[first.get_id()]);

    let mut lonely = MetroMap::new();
    lonely.add_station(Station::new(GridNode::new(0, 0), Some(StationID(1)), &mut ids));
    lonely.add_station(Station::new(GridNode::new(0, 2), Some(StationID(2)), &mut ids));
    let e = lonely.get_edge_id_between(StationID(1), StationID(2), &mut ids);
    lonely.removed_edge(e, LineID(77));
    assert!(lonely.get_edge(e).is_none());
}

#[test]
fn removing_a_line_removes_edges_no_line_uses() {
    let mut ids = IDManager::new();
    let (mut map, edge) = two_stations(&mut ids);
    let mut line = Line::new(None, &mut ids);
    line.add_edge(edge, &mut map);
    let id = line.get_id();
    map.add_line(line);
    assert_eq!(map.get_edge(edge).unwrap().get_lines(), &[id]);
    map.remove_line(id);
    assert!(map.get_line(id).is_none());
    assert!(map.get_edge(edge).is_none());
}

#[test]
fn get_or_add_line_adds_an_empty_line() {
    let mut ids = IDManager::new();
    let (mut map, _) = two_stations(&mut ids);
    let line = map.get_or_add_line(LineID(12));
    assert_eq!(line.get_id(), LineID(12));
    assert!(line.get_edges().is_empty());
    assert_eq!(map.line_ids(), vec![LineID(12)]);
}

#[test]
fn updating_nodes_of_edges() {
    let mut ids = IDManager::new();
    let (mut map, edge) = two_stations(&mut ids);
    let mut update = Edge::new(StationID(1), StationID(2), Some(edge), &mut ids);
    update.set_nodes(vec![GridNode::new(0, 1)]);
    assert!(map.update_edges(vec![update]).is_ok());
    assert_eq!(map.get_edge(edge).unwrap().get_nodes(), &[GridNode::new(0, 1)]);
    assert_eq!(map.edge_at_node(GridNode::new(0, 1)), Some(edge));
    assert_eq!(map.edge_at_node(GridNode::new(3, 3)), None);

    let missing = Edge::new(StationID(1), StationID(2), Some(EdgeID(999)), &mut ids);
    let err = map.update_edges(vec![missing]).unwrap_err();
    assert_eq!(err.get_message(), "edge not found when updating edge");
}

#[test]
fn edge_visits_and_neighbors() {
    let mut ids = IDManager::new();
    let (mut map, edge) = two_stations(&mut ids);
    map.get_mut_edge(edge).unwrap().set_nodes(vec![GridNode::new(0, 1)]);
    let e = map.get_edge(edge).unwrap();
    assert!(e.visits_node(&map, GridNode::new(0, 1)));
    assert!(e.visits_node(&map, GridNode::new(0, 2)));
    assert!(!e.visits_node(&map, GridNode::new(1, 1)));
    assert_eq!(
        e.get_neigboring_stations(&map, GridNode::new(0, 1)),
        Some((Some(StationID(1)), Some(StationID(2))))
    );
    assert_eq!(
        e.get_neigboring_stations(&map, GridNode::new(-1, -1)),
        Some((None, Some(StationID(1))))
    );
    assert_eq!(
        e.get_neigboring_stations(&map, GridNode::new(1, 3)),
        Some((Some(StationID(2)), None))
    );
    assert_eq!(e.get_neigboring_stations(&map, GridNode::new(5, 5)), Some((None, None)));
}

#[test]
fn removing_a_station_takes_it_off_every_line() {
    let mut ids = IDManager::new();
    let mut map = MetroMap::new();
    for (k, y) in [(1u64, 0), (2, 2), (3, 4)] {
        map.add_station(Station::new(GridNode::new(0, y), Some(StationID(k)), &mut ids));
    }
    let mut line = Line::new(None, &mut ids);
    line.add_station(&mut map, StationID(1), None, None, &mut ids);
    line.add_station(&mut map, StationID(2), Some(StationID(1)), None, &mut ids);
    line.add_station(&mut map, StationID(3), Some(StationID(2)), None, &mut ids);
    let id = line.get_id();
    map.add_line(line);

    map.remove_station(StationID(2), &mut ids);
    assert!(map.get_station(StationID(2)).is_none());
    let line = map.get_line(id).unwrap();
    assert_eq!(line.get_stations(), &[StationID(1), StationID(3)]);
    assert_eq!(line.get_edges().len(), 1);
    let edge = map.get_edge(line.get_edges()[0]).unwrap();
    assert!(edge.is_from(StationID(1)) && edge.is_to(StationID(3)));
}

#[test]
fn the_line_at_a_node() {
    let mut ids = IDManager::new();
    let (mut map, edge) = two_stations(&mut ids);
    map.get_mut_edge(edge).unwrap().set_nodes(vec![GridNode::new(0, 1)]);
    let mut line = Line::new(None, &mut ids);
    line.add_edge(edge, &mut map);
    let id = line.get_id();
    map.add_line(line);
    assert_eq!(map.line_at_node(GridNode::new(0, 1)).map(|l| l.get_id()), Some(id));
    assert_eq!(map.line_at_node(GridNode::new(0, 3)).map(|l| l.get_id()), Some(id));
    assert!(map.line_at_node(GridNode::new(5, 5)).is_none());
}

#[test]
fn checking_the_shape_of_a_map() {
    let mut ids = IDManager::new();
    let (mut map, edge) = two_stations(&mut ids);
    let mut line = Line::new(None, &mut ids);
    line.add_edge(edge, &mut map);
    map.add_line(line);
    assert!(map.check_wf());
    assert!(map.check_editable(&ids));

    let stale = IDManager::new();
    assert!(!map.check_editable(&stale));

    let mut broken = MetroMap::new();
    broken.add_station(Station::new(GridNode::new(i32::MIN, 0), Some(StationID(1)), &mut ids));
    assert!(broken.check_wf());
    assert!(!broken.check_editable(&ids));

    let mut dangling = MetroMap::new();
    dangling.add_line(Line::from_parts(LineID(4), "", (0, 0, 0), vec![StationID(9)], vec![]));
    assert!(dangling.check_wf());
    assert!(!dangling.check_editable(&ids));
}

#[test]
fn removing_a_station_leaves_the_others_as_they_were() {
    let mut ids = IDManager::new();
    let mut map = MetroMap::new();
    for (k, y) in [(1u64, 0), (2, 2), (3, 4)] {
        map.add_station(Station::new(GridNode::new(0, y), Some(StationID(k)), &mut ids));
    }
    map.get_mut_station(StationID(3)).unwrap().lock();
    map.get_mut_station(StationID(1)).unwrap().set_name("first");
    let mut line = Line::new(None, &mut ids);
    line.add_station(&mut map, StationID(1), None, None, &mut ids);
    line.add_station(&mut map, StationID(2), Some(StationID(1)), None, &mut ids);
    line.add_station(&mut map, StationID(3), Some(StationID(2)), None, &mut ids);
    map.add_line(line);
    let loose = map.get_edge_id_between(StationID(1), StationID(3), &mut ids);

    map.remove_station(StationID(2), &mut ids);
    assert!(map.get_station(StationID(3)).unwrap().is_locked());
    assert_eq!(map.get_station(StationID(1)).unwrap().get_name(), "first");
    assert_eq!(map.get_station(StationID(1)).unwrap().get_pos(), GridNode::new(0, 0));
    assert!(map.get_edge(loose).is_some());
    assert_eq!(map.get_edges().len(), 1);
}
