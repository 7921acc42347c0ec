use metro_map_editor::models::{
    EdgeID,
    GridNode,
    IDManager,
    Line,
    MetroMap,
    Station,
    StationID,
};

/// A map with three stations at the given positions, ids 1, 2 and 3.
fn three_stations(ids: &mut IDManager, positions: [(i32, i32); 3]) -> (MetroMap, [StationID; 3]) {
    let mut map = MetroMap::new();
    let station1: StationID = 1.into();
    let station2: StationID = 2.into();
    let station3: StationID = 3.into();
    map.add_station(Station::new(positions[0].into(), Some(station1), ids));
    map.add_station(Station::new(positions[1].into(), Some(station2), ids));
    map.add_station(Station::new(positions[2].into(), Some(station3), ids));
    (map, [station1, station2, station3])
}

/// Give each edge of the map the nodes strictly between its two stations,
/// on a straight vertical path.
fn straight_vertical_nodes(map: &mut MetroMap) {
    for id in map.edge_ids() {
        let (from, to) = {
            let edge = map.get_edge(id).unwrap();
            (edge.get_from(), edge.get_to())
        };
        let a = map.get_station(from).unwrap().get_pos();
        let b = map.get_station(to).unwrap().get_pos();
        let mut nodes = Vec::new();
        let (lo, hi) = if a.1 < b.1 { (a.1, b.1) } else { (b.1, a.1) };
        for y in (lo + 1)..hi {
            nodes.push(GridNode::new(a.0, y));
        }
        map.get_mut_edge(id).unwrap().set_nodes(nodes);
    }
}

#[test]
fn test_add_station() {
    let mut ids = IDManager::new();
    let (mut map, [station1, station2, station3]) = three_stations(&mut ids, [(0, 0), (0, 1), (0, 2)]);
    let mut line = Line::new(None, &mut ids);

    line.add_station(&mut map, station1, None, None, &mut ids);
    line.add_station(&mut map, station2, Some(station1), None, &mut ids);
    line.add_station(&mut map, station3, Some(station1), Some(station2), &mut ids);

    assert_eq!(line.get_stations(), &[station1, station2, station3]);
    assert_eq!(line.get_edges().len(), 2);
    assert_eq!(map.get_edges().len(), 2);

    assert!(
        (map.get_edge(line.get_edges()[0]).unwrap().is_from(station3)
            && map.get_edge(line.get_edges()[0]).unwrap().is_to(station1))
            || (map.get_edge(line.get_edges()[1]).unwrap().is_from(station3)
                && map.get_edge(line.get_edges()[1]).unwrap().is_to(station1))
    );
    assert!(
        (map.get_edge(line.get_edges()[0]).unwrap().is_from(station2)
            && map.get_edge(line.get_edges()[0]).unwrap().is_to(station3))
            || (map.get_edge(line.get_edges()[1]).unwrap().is_from(station2)
                && map.get_edge(line.get_edges()[1]).unwrap().is_to(station3))
    );
}

#[test]
fn test_remove_station() {
    let mut ids = IDManager::new();
    let (mut map, [station1, station2, station3]) = three_stations(&mut ids, [(0, 0), (0, 1), (0, 2)]);
    let mut line = Line::new(None, &mut ids);

    line.add_station(&mut map, station1, None, None, &mut ids);
    line.add_station(&mut map, station2, Some(station1), None, &mut ids);
    line.add_station(&mut map, station3, Some(station1), Some(station2), &mut ids);

    line.remove_station(&mut map, station3, &mut ids);

    assert_eq!(line.get_stations(), &[station1, station2]);
    assert_eq!(line.get_edges().len(), 1);
    assert_eq!(map.get_edges().len(), 1);

    assert!(
        map.get_edge(line.get_edges()[0]).unwrap().is_from(station1)
            && map.get_edge(line.get_edges()[0]).unwrap().is_to(station2)
    );
}

#[test]
fn test_get_edge_stations() {
    let mut ids = IDManager::new();
    let (mut map, [station1, station2, station3]) = three_stations(&mut ids, [(0, 0), (0, 2), (0, 4)]);
    let mut line = Line::new(None, &mut ids);

    line.add_station(&mut map, station1, None, None, &mut ids);
    line.add_station(&mut map, station2, Some(station1), None, &mut ids);
    line.add_station(&mut map, station3, Some(station2), None, &mut ids);

    straight_vertical_nodes(&mut map);

    assert_eq!(
        line.get_edge_stations(&map, (0, 1).into()),
        (Some(station1), Some(station2))
    );
    assert_eq!(
        line.get_edge_stations(&map, (0, 3).into()),
        (Some(station2), Some(station3))
    );
    assert_eq!(
        line.get_edge_stations(&map, (0, 5).into()),
        (Some(station3), None)
    );
}

#[test]
fn test_visits_node() {
    let mut ids = IDManager::new();
    let (mut map, [station1, station2, station3]) = three_stations(&mut ids, [(0, 0), (0, 2), (0, 4)]);
    let mut line = Line::new(None, &mut ids);

    line.add_station(&mut map, station1, None, None, &mut ids);
    line.add_station(&mut map, station2, Some(station1), None, &mut ids);
    line.add_station(&mut map, station3, Some(station2), None, &mut ids);

    straight_vertical_nodes(&mut map);

    assert!(!line.visits_node(&map, (0, -2).into()));
    assert!(line.visits_node(&map, (0, -1).into()));
    assert!(line.visits_node(&map, (0, 0).into()));
    assert!(line.visits_node(&map, (0, 1).into()));
    assert!(line.visits_node(&map, (0, 2).into()));
    assert!(!line.visits_node(&map, (1, 2).into()));
    assert!(line.visits_node(&map, (0, 3).into()));
    assert!(line.visits_node(&map, (0, 4).into()));
    assert!(line.visits_node(&map, (0, 5).into()));
    assert!(!line.visits_node(&map, (0, 6).into()));
}

#[test]
fn test_get_line_ends() {
    let mut ids = IDManager::new();
    let (mut map, [station1, station2, station3]) = three_stations(&mut ids, [(0, 0), (0, 2), (0, 4)]);
    let mut line = Line::new(None, &mut ids);

    line.add_station(&mut map, station1, None, None, &mut ids);
    line.add_station(&mut map, station2, Some(station1), None, &mut ids);
    line.add_station(&mut map, station3, Some(station2), None, &mut ids);

    let ends = line.get_line_ends(&map);
    assert_eq!(ends, vec![station1, station3]);
}

#[test]
fn line_ends_of_a_ring_are_empty() {
    let mut ids = IDManager::new();
    let (mut map, [station1, station2, station3]) = three_stations(&mut ids, [(0, 0), (0, 2), (0, 4)]);
    let mut line = Line::new(None, &mut ids);
    line.add_station(&mut map, station1, None, None, &mut ids);
    line.add_station(&mut map, station2, Some(station1), None, &mut ids);
    line.add_station(&mut map, station3, Some(station2), None, &mut ids);
    line.add_station(&mut map, station1, Some(station3), None, &mut ids);
    assert_eq!(line.get_line_ends(&map), Vec::<StationID>::new());
}

#[test]
fn line_without_edges_ends_at_its_stations() {
    let mut ids = IDManager::new();
    let (mut map, [station1, _, _]) = three_stations(&mut ids, [(0, 0), (0, 2), (0, 4)]);
    let mut line = Line::new(None, &mut ids);
    line.add_station(&mut map, station1, None, None, &mut ids);
    assert_eq!(line.get_line_ends(&map), vec![station1]);
    assert_eq!(
        line.get_edge_stations(&map, (1, 1).into()),
        (Some(station1), None)
    );
    assert_eq!(line.get_edge_stations(&map, (2, 2).into()), (None, None));
}

#[test]
fn station_neighbors_on_a_line() {
    let mut ids = IDManager::new();
    let (mut map, [station1, station2, station3]) = three_stations(&mut ids, [(0, 0), (0, 2), (0, 4)]);
    let mut line = Line::new(None, &mut ids);
    line.add_station(&mut map, station1, None, None, &mut ids);
    line.add_station(&mut map, station2, Some(station1), None, &mut ids);
    line.add_station(&mut map, station3, Some(station2), None, &mut ids);
    assert_eq!(
        line.get_station_neighbors(&map, station2),
        (vec![station1], vec![station3])
    );
    assert_eq!(
        line.get_station_neighbors(&map, station1),
        (vec![], vec![station2])
    );
}

#[test]
fn adding_an_edge_twice_keeps_one() {
    let mut ids = IDManager::new();
    let (mut map, [station1, station2, _]) = three_stations(&mut ids, [(0, 0), (0, 2), (0, 4)]);
    let mut line = Line::new(None, &mut ids);
    let edge = map.get_edge_id_between(station1, station2, &mut ids);
    line.add_edge(edge, &mut map);
    line.add_edge(edge, &mut map);
    assert_eq!(line.get_edges(), &[edge]);
    assert_eq!(line.get_stations(), &[station1, station2]);
    assert_eq!(map.get_edge(edge).unwrap().get_lines(), &[line.get_id()]);
    line.remove_edge_raw(edge);
    assert_eq!(line.get_edges(), &[] as &[EdgeID]);
}

#[test]
fn line_name_and_color() {
    let mut ids = IDManager::new();
    let mut line = Line::new(None, &mut ids);
    assert_eq!(line.get_color(), (0, 0, 0));
    assert_eq!(line.get_name(), "");
    line.set_color((255, 10, 0));
    line.set_name("Ring");
    assert_eq!(line.get_color(), (255, 10, 0));
    assert_eq!(line.get_name(), "Ring");
    let other = Line::new(Some(line.get_id()), &mut ids);
    assert!(line == other);
}

#[test]
fn removing_a_station_keeps_an_edge_another_line_uses() {
    let mut ids = IDManager::new();
    let (mut map, [station1, station2, station3]) = three_stations(&mut ids, [(0, 0), (0, 1), (0, 2)]);
    let mut first = Line::new(None, &mut ids);
    first.add_station(&mut map, station1, None, None, &mut ids);
    first.add_station(&mut map, station2, Some(station1), None, &mut ids);
    first.add_station(&mut map, station3, Some(station2), None, &mut ids);
    map.add_line(first.clone());
    let mut second = Line::new(None, &mut ids);
    second.add_station(&mut map, station1, None, None, &mut ids);
    second.add_station(&mut map, station2, Some(station1), None, &mut ids);
    map.add_line(second.clone());
    let shared = map.get_edge_id_between_if_exists(station1, station2).unwrap();
    let only_first = map.get_edge_id_between_if_exists(station2, station3).unwrap();

    first.remove_station(&mut map, station2, &mut ids);

    assert!(map.get_edge(only_first).is_none());
    let kept = map.get_edge(shared).unwrap();
    assert!(kept.is_from(station1) && kept.is_to(station2));
    assert_eq!(kept.get_lines(), &[second.get_id()]);
    assert_eq!(first.get_edges().len(), 1);
    let joined = map.get_edge(first.get_edges()[0]).unwrap();
    assert!(joined.is_from(station1) && joined.is_to(station3));
}
