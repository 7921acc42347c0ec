use metro_map_editor::models::{
    GridNode,
    IDManager,
    MetroMap,
    SelectedLine,
    SelectedStation,
    Station,
    StationID,
};
use metro_map_editor::state::{
    ActionType,
    BoundedStack,
    MapState,
    MouseDownEffect,
    MouseUpEffect,
};

/// Stations 1 at (0, 0) and 2 at (0, 2), joined by an edge through (0, 1).
fn two_joined_stations(ids: &mut IDManager) -> MapState {
    let mut map = MetroMap::new();
    map.add_station(Station::new(GridNode::new(0, 0), Some(StationID(1)), ids));
    map.add_station(Station::new(GridNode::new(0, 2), Some(StationID(2)), ids));
    let edge = map.get_edge_id_between(StationID(1), StationID(2), ids);
    map.get_mut_edge(edge).unwrap().set_nodes(vec![GridNode::new(0, 1)]);
    MapState::new(map)
}

#[test]
fn a_double_click_is_ignored() {
    let mut ids = IDManager::new();
    let mut state = two_joined_stations(&mut ids);
    assert_eq!(state.on_mouse_down(GridNode::new(0, 0), 2, false, false, &mut ids), MouseDownEffect::Nothing);
    assert!(state.get_selected_stations().is_empty());
    assert_eq!(state.on_mouse_up(GridNode::new(0, 0), 2, false, None, &mut ids), MouseUpEffect::Ignored);
}

#[test]
fn an_action_is_applied_on_release() {
    let mut ids = IDManager::new();
    let mut state = two_joined_stations(&mut ids);
    state.set_selected_action(ActionType::Lock);
    assert_eq!(state.on_mouse_down(GridNode::new(0, 0), 1, false, false, &mut ids), MouseDownEffect::Nothing);
    assert!(!state.get_map().get_station(StationID(1)).unwrap().is_locked());
    assert_eq!(state.on_mouse_up(GridNode::new(0, 0), 1, false, None, &mut ids), MouseUpEffect::ActionApplied);
    assert!(state.get_map().get_station(StationID(1)).unwrap().is_locked());
    assert!(state.get_selected_action().is_none());
}

#[test]
fn clicking_a_station_selects_and_then_shows_it() {
    let mut ids = IDManager::new();
    let mut state = two_joined_stations(&mut ids);
    assert_eq!(
        state.on_mouse_down(GridNode::new(0, 0), 1, false, false, &mut ids),
        MouseDownEffect::DragSelection
    );
    assert_eq!(state.get_selected_stations().len(), 1);
    assert_eq!(
        state.on_mouse_up(GridNode::new(0, 0), 1, false, None, &mut ids),
        MouseUpEffect::ClickedStation(StationID(1))
    );
    assert!(state.get_selected_stations().is_empty());
}

#[test]
fn a_dragged_station_is_dropped_and_locked() {
    let mut ids = IDManager::new();
    let mut state = two_joined_stations(&mut ids);
    state.on_mouse_down(GridNode::new(0, 0), 1, false, false, &mut ids);
    state.get_mut_selected_stations()[0].update_pos(GridNode::new(3, 0));
    assert_eq!(state.on_mouse_up(GridNode::new(3, 0), 1, false, None, &mut ids), MouseUpEffect::StationsDropped);
    let station = state.get_map().get_station(StationID(1)).unwrap();
    assert_eq!(station.get_pos(), GridNode::new(3, 0));
    assert_eq!(station.get_original_pos(), GridNode::new(3, 0));
    assert!(station.is_locked());
    assert!(state.get_selected_stations().is_empty());
}

#[test]
fn pressing_on_nothing_starts_a_box_or_a_canvas_drag() {
    let mut ids = IDManager::new();
    let mut state = two_joined_stations(&mut ids);
    let empty = GridNode::new(5, 5);
    assert_eq!(state.on_mouse_down(empty, 1, true, false, &mut ids), MouseDownEffect::BoxSelect);
    assert_eq!(state.on_mouse_down(empty, 1, false, false, &mut ids), MouseDownEffect::DragCanvas);
    assert_eq!(state.on_mouse_down(empty, 1, false, true, &mut ids), MouseDownEffect::Nothing);
    assert_eq!(
        state.on_mouse_up(empty, 1, true, Some((GridNode::new(-1, -1), GridNode::new(1, 3))), &mut ids),
        MouseUpEffect::BoxSelected
    );
    assert_eq!(state.get_selected_stations().len(), 2);
    assert_eq!(state.get_selected_edges().len(), 1);
    assert_eq!(state.on_mouse_up(empty, 1, true, None, &mut ids), MouseUpEffect::Nothing);
    assert_eq!(state.get_selected_edges().len(), 1);
    assert_eq!(state.on_mouse_up(empty, 1, false, None, &mut ids), MouseUpEffect::SelectionCleared);
    assert!(state.get_selected_stations().is_empty());
    assert!(state.get_selected_edges().is_empty());
}

#[test]
fn pressing_on_an_edge_selects_it() {
    let mut ids = IDManager::new();
    let mut state = two_joined_stations(&mut ids);
    assert_eq!(
        state.on_mouse_down(GridNode::new(0, 1), 1, false, false, &mut ids),
        MouseDownEffect::DragSelection
    );
    assert_eq!(state.get_selected_edges().len(), 1);
}

#[test]
fn a_new_station_is_placed_on_press() {
    let mut ids = IDManager::new();
    let mut state = two_joined_stations(&mut ids);
    let selected = SelectedStation::new_station(&mut ids);
    let id = selected.get_station().get_id();
    state.select_station(selected);
    assert_eq!(state.on_mouse_down(GridNode::new(4, 4), 1, false, false, &mut ids), MouseDownEffect::Nothing);
    assert_eq!(state.get_map().get_station(id).unwrap().get_pos(), GridNode::new(4, 4));
    assert!(state.get_selected_stations().is_empty());
}

#[test]
fn a_selected_line_takes_the_pressed_station() {
    let mut ids = IDManager::new();
    let mut state = two_joined_stations(&mut ids);
    let selected = SelectedLine::new_line(state.get_mut_map(), &mut ids);
    let line = selected.get_line();
    state.set_selected_line(selected);
    assert_eq!(state.on_mouse_down(GridNode::new(0, 2), 1, false, false, &mut ids), MouseDownEffect::Nothing);
    assert!(state.get_selected_line().is_none());
    assert_eq!(state.get_map().get_line(line).unwrap().get_stations(), &[StationID(2)]);
}

#[test]
fn a_selected_line_takes_the_released_on_station() {
    let mut ids = IDManager::new();
    let mut state = two_joined_stations(&mut ids);
    let selected = SelectedLine::new_line(state.get_mut_map(), &mut ids);
    let line = selected.get_line();
    state.set_selected_line(selected);
    assert_eq!(
        state.on_mouse_up(GridNode::new(0, 0), 1, false, None, &mut ids),
        MouseUpEffect::StationAddedToLine
    );
    assert!(state.get_selected_line().is_none());
    assert_eq!(state.get_map().get_line(line).unwrap().get_stations(), &[StationID(1)]);
}

#[test]
fn popping_right_after_a_push_gives_it_back() {
    let mut stack = BoundedStack::new();
    stack.push(1u32);
    stack.push(2u32);
    stack.push(3u32);
    assert_eq!(stack.pop(), Some(3));
    stack.push(4u32);
    assert_eq!(stack.pop(), Some(4));
    assert_eq!(stack.pop(), Some(2));
    assert_eq!(stack.pop(), Some(1));
    assert_eq!(stack.pop(), None);
}
