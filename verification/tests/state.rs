use metro_map_editor::models::{
    Edge,
    EdgeID,
    GridNode,
    IDManager,
    Line,
    LineID,
    MetroMap,
    SelectedLine,
    SelectedStation,
    Station,
    StationID,
};
use metro_map_editor::state::{
    ActionType,
    ErrorState,
    HistoryState,
    InteractionState,
    key_command,
    KeyCommand,
    MapState,
    Occupant,
};
use metro_map_editor::Error;

/// A map with a single station whose id tells the maps apart.
fn map_with_station(id: u64) -> MetroMap {
    let mut ids = IDManager::new();
    let mut map = MetroMap::new();
    map.add_station(Station::new(GridNode::new(0, 0), Some(StationID(id)), &mut ids));
    map
}

fn marker(map: &MetroMap) -> Vec<StationID> {
    let mut ids = map.station_ids();
    ids.sort();
    ids
}

#[test]
fn error_state_shows_the_last_error() {
    let mut state = ErrorState::new();
    assert!(!state.has_error());
    assert!(state.get_error().is_none());
    state.set_error(Error::other("first"));
    state.set_error(Error::other("second"));
    assert!(state.has_error());
    assert_eq!(state.get_error().unwrap().get_message(), "second");
    state.clear_error();
    assert!(!state.has_error());
}

#[test]
fn interaction_state_defaults_and_setters() {
    let mut state = InteractionState::new();
    assert_eq!(state.get_cursor(), "default");
    assert!(!state.is_busy());
    state.set_cursor("wait");
    state.set_busy(true);
    assert_eq!(state.get_cursor(), "wait");
    assert!(state.is_busy());
}

#[test]
fn undo_gives_back_the_map_before_the_change() {
    let mut history = HistoryState::new();
    history.push_past_map(map_with_station(1));
    let back = history.undo(map_with_station(2)).unwrap();
    assert_eq!(marker(&back), vec![StationID(1)]);
    let forward = history.redo(back).unwrap();
    assert_eq!(marker(&forward), vec![StationID(2)]);
    assert!(history.redo(map_with_station(3)).is_none());
}

#[test]
fn undo_with_nothing_to_undo() {
    let mut history = HistoryState::new();
    assert!(history.undo(map_with_station(1)).is_none());
    assert!(history.redo(map_with_station(1)).is_none());
}

#[test]
fn a_change_forgets_what_could_be_redone() {
    let mut history = HistoryState::new();
    history.push_past_map(map_with_station(1));
    let back = history.undo(map_with_station(2)).unwrap();
    history.push_past_map(back);
    assert!(history.redo(map_with_station(3)).is_none());
}

#[test]
fn history_keeps_five_maps() {
    let mut history = HistoryState::new();
    for i in 1..=7 {
        history.push_past_map(map_with_station(i));
    }
    let mut seen = Vec::new();
    let mut current = map_with_station(100);
    while let Some(back) = history.undo(current) {
        seen.push(marker(&back)[0]);
        current = back;
    }
    assert_eq!(
        seen,
        vec![StationID(7), StationID(6), StationID(5), StationID(4), StationID(3)]
    );
}

#[test]
fn selected_line_keeps_its_parts() {
    let mut ids = IDManager::new();
    let mut map = MetroMap::new();
    let mut selected = SelectedLine::new_line(&mut map, &mut ids);
    assert!(map.get_line(selected.get_line()).is_some());
    assert_eq!(selected.get_current_hover(), GridNode::new(i32::MIN, i32::MIN));
    assert_eq!(selected.get_grabbed_at(), None);
    assert_eq!(selected.get_before_after(), (None, None));
    selected.set_current_hover(GridNode::new(3, 4));
    selected.set_before(StationID(8));
    selected.set_after(StationID(9));
    assert_eq!(selected.get_current_hover(), GridNode::new(3, 4));
    assert_eq!(
        selected.get_before_after(),
        (Some(StationID(8)), Some(StationID(9)))
    );

    let line = Line::new(None, &mut ids);
    let grabbed = SelectedLine::new(&line, &map, GridNode::new(1, 1), Some(GridNode::new(1, 1)));
    assert_eq!(grabbed.get_line(), line.get_id());
    assert_eq!(grabbed.get_before_after(), (None, None));
}

#[test]
fn selected_station_tracks_its_move() {
    let mut ids = IDManager::new();
    let station = Station::new(GridNode::new(2, 2), None, &mut ids);
    let mut selected = SelectedStation::new(station);
    assert!(!selected.is_new());
    assert!(!selected.has_moved());
    selected.update_pos(GridNode::new(3, 2));
    assert!(selected.has_moved());
    assert_eq!(selected.get_original_position(), Some(GridNode::new(2, 2)));
    selected.add_before(StationID(5));
    selected.add_after(StationID(6));
    assert_eq!(
        selected.get_before_after(),
        (&[StationID(5)][..], &[StationID(6)][..])
    );
    let placed = selected.deselect();
    assert_eq!(placed.get_pos(), GridNode::new(3, 2));

    let fresh = SelectedStation::new_station(&mut ids);
    assert!(fresh.is_new());
    assert!(fresh.has_moved());
    assert_eq!(fresh.get_pos(), GridNode::new(i32::MIN, i32::MIN));
}

#[test]
fn map_state_selections() {
    let mut ids = IDManager::new();
    let mut map = MetroMap::new();
    let a = Station::new(GridNode::new(0, 0), None, &mut ids);
    let b = Station::new(GridNode::new(0, 3), None, &mut ids);
    let (a_id, b_id) = (a.get_id(), b.get_id());
    map.add_station(a);
    map.add_station(b);
    let edge = map.get_edge_id_between(a_id, b_id, &mut ids);
    map.get_mut_edge(edge).unwrap().set_nodes(vec![GridNode::new(0, 1), GridNode::new(0, 2)]);

    let mut state = MapState::new(map);
    state.select_edge(edge);
    assert!(state.get_map().get_edge(edge).unwrap().is_selected());
    assert!(state.is_on_selected_object(GridNode::new(0, 1)));
    assert!(!state.is_on_selected_object(GridNode::new(5, 5)));

    let selected = SelectedStation::new(state.get_map().get_station(a_id).unwrap().clone());
    state.select_station(selected);
    state.lock_selected();
    assert!(state.get_map().get_edge(edge).unwrap().is_locked());
    assert!(state.get_map().get_station(a_id).unwrap().is_locked());
    assert!(!state.get_map().get_station(b_id).unwrap().is_locked());
    state.unlock_selected();
    assert!(!state.get_map().get_edge(edge).unwrap().is_locked());

    state.set_selected_action(ActionType::Lock);
    assert_eq!(state.get_selected_action(), Some(ActionType::Lock));
    state.clear_all_selections();
    assert_eq!(state.get_selected_action(), None);
    assert!(state.get_selected_edges().is_empty());
    assert!(state.get_selected_stations().is_empty());
    assert!(!state.get_map().get_edge(edge).unwrap().is_selected());
}

#[test]
fn grid_limits_lie_two_beyond_the_stations() {
    let mut ids = IDManager::new();
    let mut map = MetroMap::new();
    map.add_station(Station::new(GridNode::new(-3, 4), None, &mut ids));
    map.add_station(Station::new(GridNode::new(5, -1), None, &mut ids));
    let mut state = MapState::new(map);
    state.calculate_algorithm_settings();
    assert_eq!(state.get_grid_limits(), ((-5, 7), (-3, 6)));

    let mut empty = MapState::new(MetroMap::new());
    empty.calculate_algorithm_settings();
    assert_eq!(
        empty.get_grid_limits(),
        ((i32::MAX - 2, i32::MIN + 2), (i32::MAX - 2, i32::MIN + 2))
    );
}

#[test]
fn partial_map_of_the_selected_edges() {
    let mut ids = IDManager::new();
    let mut map = MetroMap::new();
    let a = Station::new(GridNode::new(0, 0), None, &mut ids);
    let b = Station::new(GridNode::new(0, 2), None, &mut ids);
    let c = Station::new(GridNode::new(0, 4), None, &mut ids);
    let (a_id, b_id, c_id) = (a.get_id(), b.get_id(), c.get_id());
    map.add_station(a);
    map.add_station(b);
    map.add_station(c);
    let mut line = Line::new(None, &mut ids);
    line.add_station(&mut map, a_id, None, None, &mut ids);
    line.add_station(&mut map, b_id, Some(a_id), None, &mut ids);
    line.add_station(&mut map, c_id, Some(b_id), None, &mut ids);
    let line_id = line.get_id();
    map.add_line(line);
    let first = map.get_edge_id_between_if_exists(a_id, b_id).unwrap();
    let second = map.get_edge_id_between_if_exists(b_id, c_id).unwrap();
    map.get_mut_edge(second).unwrap().set_nodes(vec![GridNode::new(0, 3)]);

    let mut state = MapState::new(map);
    state.select_edge(first);
    state.select_station(SelectedStation::new(state.get_map().get_station(a_id).unwrap().clone()));

    let (partial, occupied) = state.get_selected_partial_map(&mut ids);
    let mut stations = partial.station_ids();
    stations.sort();
    assert_eq!(stations, vec![a_id, b_id]);
    assert!(!partial.get_station(a_id).unwrap().is_locked());
    assert!(partial.get_station(b_id).unwrap().is_locked());
    assert_eq!(partial.line_ids(), vec![line_id]);
    assert_eq!(partial.get_edges().len(), 1);
    let new_edge = partial.get_edge_id_between_if_exists(a_id, b_id).unwrap();
    assert_eq!(partial.get_line(line_id).unwrap().get_edges(), &[new_edge]);

    assert!(occupied.contains(&(GridNode::new(0, 4), Occupant::Station(c_id))));
    assert!(occupied.contains(&(GridNode::new(0, 3), Occupant::Edge(second))));
    assert_eq!(occupied.len(), 2);
}

#[test]
fn a_click_with_an_action_selected() {
    let mut ids = IDManager::new();
    let mut map = MetroMap::new();
    let a = Station::new(GridNode::new(0, 0), None, &mut ids);
    let b = Station::new(GridNode::new(0, 3), None, &mut ids);
    let (a_id, b_id) = (a.get_id(), b.get_id());
    map.add_station(a);
    map.add_station(b);
    let edge = map.get_edge_id_between(a_id, b_id, &mut ids);
    map.get_mut_edge(edge).unwrap().set_nodes(vec![GridNode::new(0, 1), GridNode::new(0, 2)]);
    let mut state = MapState::new(map);

    assert!(!state.apply_selected_action(GridNode::new(0, 0), false, &mut ids));

    state.set_selected_action(ActionType::Lock);
    assert!(state.apply_selected_action(GridNode::new(0, 1), true, &mut ids));
    assert!(state.get_map().get_edge(edge).unwrap().is_locked());
    assert_eq!(state.get_selected_action(), Some(ActionType::Lock));
    assert!(state.apply_selected_action(GridNode::new(0, 0), false, &mut ids));
    assert!(state.get_map().get_station(a_id).unwrap().is_locked());
    assert_eq!(state.get_selected_action(), None);

    state.set_selected_action(ActionType::RemoveStation);
    assert!(state.apply_selected_action(GridNode::new(0, 3), false, &mut ids));
    assert!(state.get_map().get_station(b_id).is_none());
    assert!(state.get_map().get_station(a_id).is_some());
}

#[test]
fn box_select_picks_stations_and_the_edges_between_them() {
    let mut ids = IDManager::new();
    let mut map = MetroMap::new();
    let a = Station::new(GridNode::new(0, 0), None, &mut ids);
    let b = Station::new(GridNode::new(2, 1), None, &mut ids);
    let c = Station::new(GridNode::new(9, 9), None, &mut ids);
    let (a_id, b_id, c_id) = (a.get_id(), b.get_id(), c.get_id());
    map.add_station(a);
    map.add_station(b);
    map.add_station(c);
    let ab = map.get_edge_id_between(a_id, b_id, &mut ids);
    let bc = map.get_edge_id_between(b_id, c_id, &mut ids);
    let mut state = MapState::new(map);

    state.select_in_box(GridNode::new(-1, -1), GridNode::new(3, 3));
    let mut picked: Vec<StationID> = state
        .get_selected_stations()
        .iter()
        .map(|s| s.get_station().get_id())
        .collect();
    picked.sort();
    assert_eq!(picked, vec![a_id, b_id]);
    assert_eq!(state.get_selected_edges(), &[ab]);
    assert!(state.get_map().get_edge(ab).unwrap().is_selected());
    assert!(!state.get_map().get_edge(bc).unwrap().is_selected());
    let grabbed_b = state
        .get_selected_stations()
        .iter()
        .find(|s| s.get_station().get_id() == b_id)
        .unwrap();
    assert_eq!(grabbed_b.get_before_after(), (&[a_id][..], &[c_id][..]));
}

#[test]
fn pressing_on_a_station_selects_it() {
    let mut ids = IDManager::new();
    let mut map = MetroMap::new();
    let a = Station::new(GridNode::new(0, 0), None, &mut ids);
    let b = Station::new(GridNode::new(4, 0), None, &mut ids);
    let (a_id, b_id) = (a.get_id(), b.get_id());
    map.add_station(a);
    map.add_station(b);
    let mut state = MapState::new(map);
    assert!(!state.select_station_at(GridNode::new(1, 1), false));
    assert!(state.select_station_at(GridNode::new(0, 0), false));
    assert!(state.select_station_at(GridNode::new(4, 0), true));
    assert_eq!(state.get_selected_stations().len(), 2);
    assert!(state.select_station_at(GridNode::new(4, 0), false));
    assert_eq!(state.get_selected_stations().len(), 2);
    let mut state2 = MapState::new(MetroMap::new());
    assert!(!state2.select_station_at(GridNode::new(0, 0), false));
    let _ = (a_id, b_id);
}

#[test]
fn keys_ask_for_commands() {
    assert_eq!(key_command(b"Escape", false), Some(KeyCommand::ClearSelections));
    assert_eq!(key_command(b"z", true), Some(KeyCommand::Undo));
    assert_eq!(key_command(b"Z", true), Some(KeyCommand::Redo));
    assert_eq!(key_command(b"z", false), None);
    assert_eq!(key_command(b"x", true), None);
}

#[test]
fn undo_and_redo_by_key() {
    let mut history = HistoryState::new();
    let mut state = MapState::new(map_with_station(2));
    state.apply_key_command(KeyCommand::Undo, &mut history);
    assert_eq!(marker(state.get_map()), vec![StationID(2)]);

    history.push_past_map(map_with_station(1));
    state.apply_key_command(KeyCommand::Undo, &mut history);
    assert_eq!(marker(state.get_map()), vec![StationID(1)]);
    state.apply_key_command(KeyCommand::Redo, &mut history);
    assert_eq!(marker(state.get_map()), vec![StationID(2)]);
    state.apply_key_command(KeyCommand::Redo, &mut history);
    assert_eq!(marker(state.get_map()), vec![StationID(2)]);
}

#[test]
fn partial_map_joins_each_pair_of_stations_once() {
    let mut ids = IDManager::new();
    let mut map = MetroMap::new();
    map.add_station(Station::new(GridNode::new(0, 0), Some(StationID(1)), &mut ids));
    map.add_station(Station::new(GridNode::new(0, 2), Some(StationID(2)), &mut ids));
    let mut there = Edge::new(StationID(1), StationID(2), Some(EdgeID(10)), &mut ids);
    there.set_lines(vec![LineID(7)]);
    let mut back = Edge::new(StationID(2), StationID(1), Some(EdgeID(11)), &mut ids);
    back.set_lines(vec![LineID(8)]);
    map.add_edge(there);
    map.add_edge(back);

    let mut state = MapState::new(map);
    state.set_selected_edges(vec![EdgeID(10), EdgeID(11)]);
    let (partial, _) = state.get_selected_partial_map(&mut ids);

    let edges = partial.get_edges();
    assert_eq!(edges.len(), 1);
    let joined = edges[0].get_id();
    assert_eq!(edges[0].get_lines(), &[LineID(7), LineID(8)]);
    assert_eq!(partial.get_station(StationID(1)).unwrap().get_edges(), &[joined]);
    assert_eq!(partial.get_station(StationID(2)).unwrap().get_edges(), &[joined]);
    for line in [LineID(7), LineID(8)] {
        let line = partial.get_line(line).unwrap();
        assert_eq!(line.get_edges(), &[joined]);
        assert!(line.get_stations().contains(&StationID(1)));
        assert!(line.get_stations().contains(&StationID(2)));
    }
}

#[test]
fn a_new_station_is_placed_where_clicked() {
    let mut ids = IDManager::new();
    let mut state = MapState::new(MetroMap::new());
    assert!(!state.place_new_station(GridNode::new(3, 4)));
    let selected = SelectedStation::new_station(&mut ids);
    let id = selected.get_station().get_id();
    state.select_station(selected);
    assert!(state.place_new_station(GridNode::new(3, 4)));
    assert!(state.get_selected_stations().is_empty());
    let placed = state.get_map().get_station(id).unwrap();
    assert_eq!(placed.get_pos(), GridNode::new(3, 4));
    assert_eq!(placed.get_original_pos(), GridNode::new(3, 4));
}

#[test]
fn an_existing_station_is_not_placed_again() {
    let map = map_with_station(1);
    let mut state = MapState::new(map);
    let station = state.get_map().get_station(StationID(1)).unwrap().clone();
    state.select_station(SelectedStation::new(station));
    assert!(!state.place_new_station(GridNode::new(3, 4)));
    assert_eq!(state.get_selected_stations().len(), 1);
    assert_eq!(state.get_map().get_station(StationID(1)).unwrap().get_pos(), GridNode::new(0, 0));
}

#[test]
fn clicking_an_edge_selects_it() {
    let mut ids = IDManager::new();
    let mut map = MetroMap::new();
    map.add_station(Station::new(GridNode::new(0, 0), Some(StationID(1)), &mut ids));
    map.add_station(Station::new(GridNode::new(0, 2), Some(StationID(2)), &mut ids));
    map.add_station(Station::new(GridNode::new(0, 4), Some(StationID(3)), &mut ids));
    let first = map.get_edge_id_between(StationID(1), StationID(2), &mut ids);
    let second = map.get_edge_id_between(StationID(2), StationID(3), &mut ids);
    map.get_mut_edge(first).unwrap().set_nodes(vec![GridNode::new(0, 1)]);
    map.get_mut_edge(second).unwrap().set_nodes(vec![GridNode::new(0, 3)]);
    let mut state = MapState::new(map);

    assert!(!state.select_edge_at(GridNode::new(7, 7), false));
    assert!(state.get_selected_edges().is_empty());
    assert!(state.select_edge_at(GridNode::new(0, 1), false));
    assert_eq!(state.get_selected_edges(), &[first]);
    assert!(state.select_edge_at(GridNode::new(0, 3), true));
    assert_eq!(state.get_selected_edges(), &[first, second]);
    assert!(state.select_edge_at(GridNode::new(0, 3), false));
    assert_eq!(state.get_selected_edges(), &[first, second]);
    state.clear_selected_edges();
    assert!(state.select_edge_at(GridNode::new(0, 3), false));
    assert_eq!(state.get_selected_edges(), &[second]);
    assert!(state.get_map().get_edge(second).unwrap().is_selected());
}

#[test]
fn dropping_moved_stations_locks_them_in_place() {
    let mut ids = IDManager::new();
    let mut map = MetroMap::new();
    map.add_station(Station::new(GridNode::new(0, 0), Some(StationID(1)), &mut ids));
    map.add_station(Station::new(GridNode::new(5, 5), Some(StationID(2)), &mut ids));
    let mut state = MapState::new(map);
    assert!(!state.drop_moved_stations());

    let mut moved = SelectedStation::new(state.get_map().get_station(StationID(1)).unwrap().clone());
    moved.update_pos(GridNode::new(2, 3));
    let still = SelectedStation::new(state.get_map().get_station(StationID(2)).unwrap().clone());
    state.select_station(moved);
    state.select_station(still);

    assert!(state.drop_moved_stations());
    assert!(state.get_selected_stations().is_empty());
    let one = state.get_map().get_station(StationID(1)).unwrap();
    assert_eq!(one.get_pos(), GridNode::new(2, 3));
    assert_eq!(one.get_original_pos(), GridNode::new(2, 3));
    assert!(one.is_locked());
    let two = state.get_map().get_station(StationID(2)).unwrap();
    assert_eq!(two.get_pos(), GridNode::new(5, 5));
    assert!(!two.is_locked());
}

#[test]
fn a_station_clicked_with_a_line_selected_joins_the_line() {
    let mut ids = IDManager::new();
    let mut map = MetroMap::new();
    map.add_station(Station::new(GridNode::new(0, 0), Some(StationID(1)), &mut ids));
    map.add_station(Station::new(GridNode::new(0, 2), Some(StationID(2)), &mut ids));
    let mut state = MapState::new(map);
    assert!(!state.add_station_to_selected_line(GridNode::new(0, 0), &mut ids));

    let selected = SelectedLine::new_line(state.get_mut_map(), &mut ids);
    let line_id = selected.get_line();
    state.set_selected_line(selected);
    assert!(!state.add_station_to_selected_line(GridNode::new(9, 9), &mut ids));
    assert!(state.get_selected_line().is_none());

    state.set_selected_line(selected);
    assert!(state.add_station_to_selected_line(GridNode::new(0, 0), &mut ids));
    assert!(state.get_selected_line().is_none());
    assert_eq!(state.get_map().get_line(line_id).unwrap().get_stations(), &[StationID(1)]);

    let mut after_first = selected;
    after_first.set_before(StationID(1));
    state.set_selected_line(after_first);
    assert!(state.add_station_to_selected_line(GridNode::new(0, 2), &mut ids));
    let line = state.get_map().get_line(line_id).unwrap();
    assert_eq!(line.get_stations(), &[StationID(1), StationID(2)]);
    assert_eq!(line.get_edges().len(), 1);
    let edge = state.get_map().get_edge(line.get_edges()[0]).unwrap();
    assert!(edge.is_from(StationID(1)) && edge.is_to(StationID(2)));
    assert_eq!(edge.get_lines(), &[line_id]);
}
