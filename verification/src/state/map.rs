//! Contains the [`MapState`]: the map being edited, what the user has
//! selected on it, and the limits of the grid for the layout algorithm.
use vstd::prelude::*;

use crate::models::{
    EdgeID,
    EdgeView,
    GridNode,
    MetroMap,
    MetroMapView,
    SelectedLine,
    SelectedLineView,
    SelectedStation,
    SelectedStationView,
    LineID,
    LineView,
    StationID,
    StationView,
};
use super::history::{
    after_redo,
    after_undo,
    HistoryState,
};
use crate::models::route::{
    end_of,
    leaves,
    start_of,
    edge_stations,
    line_stations_listed,
    line_visits,
};
use crate::models::{
    connects,
    same_but_lines,
    touches,
    edge_runs,
    line_edges_in,
    station_added,
    contains_edge_id,
    line_rejoined,
    editable,
    stations_inside_grid,
    without_line,
    edge_visits,
    empty_line_view,
    fresh_edge_ids,
    lemma_push_contains,
    lemma_push_once_contains,
    lemma_lines_with_members,
    line_with_edge,
    lines_with,
    new_edge_view,
    push_once,
    sorted_ids,
    station_with_edge,
    strictly_sorted_ids,
    with_edge,
    with_line,
    with_station,
    IDManager,
    Line,
};

verus! {

/// The type of operation that is currently selected.
#[derive(Clone, Copy, Debug, PartialEq, Eq, Structural)]
pub enum ActionType {
    /// User wants to remove a station.
    RemoveStation,
    /// User wants to remove a line.
    RemoveLine,
    /// User wants to lock a station or edge.
    Lock,
    /// User wants to unlock a station or edge.
    Unlock,
}

/// The map with each of its edges among `ids` marked as selected (`on`) or
/// not.
pub open spec fn with_edges_selected(m: MetroMapView, ids: Seq<EdgeID>, on: bool) -> MetroMapView {
    MetroMapView {
        edges: Map::new(
            |k: u64| m.edges.contains_key(k),
            |k: u64|
                if ids.contains(EdgeID(k)) {
                    EdgeView { is_selected: on, ..m.edges[k] }
                } else {
                    m.edges[k]
                },
        ),
        ..m
    }
}

/// The map with each of its edges among `ids` locked (`on`) or unlocked.
pub open spec fn with_edges_locked(m: MetroMapView, ids: Seq<EdgeID>, on: bool) -> MetroMapView {
    MetroMapView {
        edges: Map::new(
            |k: u64| m.edges.contains_key(k),
            |k: u64|
                if ids.contains(EdgeID(k)) {
                    EdgeView { is_locked: on, ..m.edges[k] }
                } else {
                    m.edges[k]
                },
        ),
        ..m
    }
}

/// The map with each of its stations among `ids` locked (`on`) or unlocked.
pub open spec fn with_stations_locked(m: MetroMapView, ids: Seq<StationID>, on: bool) -> MetroMapView {
    MetroMapView {
        stations: Map::new(
            |k: u64| m.stations.contains_key(k),
            |k: u64|
                if ids.contains(StationID(k)) {
                    StationView { is_locked: on, ..m.stations[k] }
                } else {
                    m.stations[k]
                },
        ),
        ..m
    }
}

/// The ids of the selected stations, in order.
pub open spec fn selected_ids(s: Seq<SelectedStationView>) -> Seq<StationID> {
    s.map_values(|x: SelectedStationView| x.station.id)
}

/// The grid limits of the layout algorithm for the map: two nodes beyond
/// the smallest and the largest coordinate of its stations, in each
/// direction. Without stations, they are the limits of an empty range.
pub open spec fn limits_fit(m: MetroMapView, x: (i32, i32), y: (i32, i32)) -> bool {
    if m.stations.dom().is_empty() {
        x.0 == i32::MAX - 2 && x.1 == i32::MIN + 2 && y.0 == i32::MAX - 2 && y.1 == i32::MIN + 2
    } else {
        &&& forall|k: u64| #[trigger] m.stations.contains_key(k) ==> x.0 + 2 <= m.stations[k].pos.0 <= x.1 - 2
            && y.0 + 2 <= m.stations[k].pos.1 <= y.1 - 2
        &&& exists|k: u64| #[trigger] m.stations.contains_key(k) && m.stations[k].pos.0 == x.0 + 2
        &&& exists|k: u64| #[trigger] m.stations.contains_key(k) && m.stations[k].pos.0 == x.1 - 2
        &&& exists|k: u64| #[trigger] m.stations.contains_key(k) && m.stations[k].pos.1 == y.0 + 2
        &&& exists|k: u64| #[trigger] m.stations.contains_key(k) && m.stations[k].pos.1 == y.1 - 2
    }
}

/// Every station stands at least two nodes inside the grid.
pub open spec fn stations_inside_limits(m: MetroMapView) -> bool {
    forall|k: u64| #[trigger]
        m.stations.contains_key(k) ==> i32::MIN + 2 <= m.stations[k].pos.0 <= i32::MAX - 2 && i32::MIN
            + 2 <= m.stations[k].pos.1 <= i32::MAX - 2
}

/// If the node is on a selected object: a selected station stands on it,
/// or a selected edge goes through it.
pub open spec fn on_selected_object(v: MapStateView, node: GridNode) -> bool {
    ||| exists|i: int| 0 <= i < v.selected_stations.len() && #[trigger] v.selected_stations[i].station.pos == node
    ||| exists|j: int|
        0 <= j < v.selected_edges.len() && #[trigger] edge_visits(v.map, v.map.edges[v.selected_edges[j].0], node)
}

/// A node is on a selected object when a selected station stands on it or
/// a selected edge goes through it, and only then.
pub proof fn lemma_on_selected_object(v: MapStateView, node: GridNode)
    ensures
        forall|i: int|
            0 <= i < v.selected_stations.len() && (#[trigger] v.selected_stations[i]).station.pos == node
                ==> on_selected_object(v, node),
        forall|j: int|
            0 <= j < v.selected_edges.len() && edge_visits(v.map, v.map.edges[(#[trigger] v.selected_edges[j]).0], node)
                ==> on_selected_object(v, node),
        (forall|i: int| 0 <= i < v.selected_stations.len() ==> (#[trigger] v.selected_stations[i]).station.pos != node)
            && (forall|j: int|
            0 <= j < v.selected_edges.len() ==> !edge_visits(v.map, v.map.edges[(#[trigger] v.selected_edges[j]).0], node))
            ==> !on_selected_object(v, node),
{
    assert forall|i: int|
        0 <= i < v.selected_stations.len() && (#[trigger] v.selected_stations[i]).station.pos == node implies on_selected_object(
        v, node) by {
        assert(v.selected_stations[i].station.pos == node);
    }
    assert forall|j: int|
        0 <= j < v.selected_edges.len() && edge_visits(v.map, v.map.edges[(#[trigger] v.selected_edges[j]).0], node)
        implies on_selected_object(v, node) by {
        assert(edge_visits(v.map, v.map.edges[v.selected_edges[j].0], node));
    }
}

/// What a [`MapState`] holds.
pub struct MapStateView {
    pub map: MetroMapView,
    pub selected_stations: Seq<SelectedStationView>,
    pub selected_line: Option<SelectedLineView>,
    pub selected_action: Option<ActionType>,
    pub selected_edges: Seq<EdgeID>,
    pub grid_x_limits: (i32, i32),
    pub grid_y_limits: (i32, i32),
    pub last_loaded: Option<MetroMapView>,
    pub original_overlay_enabled: bool,
}

impl MapStateView {
    /// Every selected edge is an edge of the map.
    pub open spec fn edges_valid(self) -> bool {
        forall|i: int|
            0 <= i < self.selected_edges.len() ==> self.map.edges.contains_key(
                #[trigger] self.selected_edges[i].0,
            )
    }
}

/// Holds the map being edited and everything the user has selected on it.
#[derive(Debug)]
pub struct MapState {
    /// The current state of the map.
    map: MetroMap,
    /// The currently selected stations.
    selected_stations: Vec<SelectedStation>,
    /// The currently selected line.
    selected_line: Option<SelectedLine>,
    /// The type of action that is currently selected.
    selected_action: Option<ActionType>,
    /// The currently selected edges.
    selected_edges: Vec<EdgeID>,
    /// The smallest and largest x coordinate the layout algorithm may use.
    grid_x_limits: (i32, i32),
    /// The smallest and largest y coordinate the layout algorithm may use.
    grid_y_limits: (i32, i32),
    /// The last loaded map.
    last_loaded: Option<MetroMap>,
    /// If the last loaded map should be overlaid on the current map.
    original_overlay_enabled: bool,
}

impl View for MapState {
    type V = MapStateView;

    closed spec fn view(&self) -> MapStateView {
        MapStateView {
            map: self.map@,
            selected_stations: self.selected_stations@.map_values(|s: SelectedStation| s@),
            selected_line: match self.selected_line {
                Some(l) => Some(l@),
                None => None,
            },
            selected_action: self.selected_action,
            selected_edges: self.selected_edges@,
            grid_x_limits: self.grid_x_limits,
            grid_y_limits: self.grid_y_limits,
            last_loaded: match self.last_loaded {
                Some(m) => Some(m@),
                None => None,
            },
            original_overlay_enabled: self.original_overlay_enabled,
        }
    }
}

/// Mark each of the edges `ids` of the map as selected (`on`) or not.
fn mark_edges_selected(map: &mut MetroMap, ids: &[EdgeID], on: bool)
    requires
        forall|i: int| 0 <= i < ids@.len() ==> old(map)@.edges.contains_key(#[trigger] ids@[i].0),
    ensures
        final(map)@ == with_edges_selected(old(map)@, ids@, on),
{
    let mut i: usize = 0;
    assert(map@ =~= with_edges_selected(old(map)@, ids@.take(0), on));
    while i < ids.len()
        invariant
            i <= ids@.len(),
            forall|j: int| 0 <= j < ids@.len() ==> old(map)@.edges.contains_key(#[trigger] ids@[j].0),
            map@ == with_edges_selected(old(map)@, ids@.take(i as int), on),
        decreases ids@.len() - i,
    {
        let ghost before = map@;
        assert(before.edges.contains_key(ids@[i as int].0));
        match map.get_mut_edge(ids[i]) {
            Some(e) => {
                if on {
                    e.select();
                } else {
                    e.deselect();
                }
            },
            None => {},
        }
        proof {
            let t = ids@.take(i + 1);
            assert(t =~= ids@.take(i as int).push(ids@[i as int]));
            assert forall|k: u64| #[trigger] t.contains(EdgeID(k)) == (ids@.take(i as int).contains(EdgeID(k)) || ids@[i as int] == EdgeID(k)) by {
                lemma_push_contains(ids@.take(i as int), ids@[i as int], EdgeID(k));
            }
            assert(map@.edges =~= with_edges_selected(old(map)@, t, on).edges);
        }
        i = i + 1;
    }
    assert(ids@.take(ids@.len() as int) =~= ids@);
}

/// Lock (`on`) or unlock each of the edges `ids` of the map.
fn mark_edges_locked(map: &mut MetroMap, ids: &[EdgeID], on: bool)
    requires
        forall|i: int| 0 <= i < ids@.len() ==> old(map)@.edges.contains_key(#[trigger] ids@[i].0),
    ensures
        final(map)@ == with_edges_locked(old(map)@, ids@, on),
{
    let mut i: usize = 0;
    assert(map@ =~= with_edges_locked(old(map)@, ids@.take(0), on));
    while i < ids.len()
        invariant
            i <= ids@.len(),
            forall|j: int| 0 <= j < ids@.len() ==> old(map)@.edges.contains_key(#[trigger] ids@[j].0),
            map@ == with_edges_locked(old(map)@, ids@.take(i as int), on),
        decreases ids@.len() - i,
    {
        let ghost before = map@;
        assert(before.edges.contains_key(ids@[i as int].0));
        match map.get_mut_edge(ids[i]) {
            Some(e) => {
                if on {
                    e.lock();
                } else {
                    e.unlock();
                }
            },
            None => {},
        }
        proof {
            let t = ids@.take(i + 1);
            assert(t =~= ids@.take(i as int).push(ids@[i as int]));
            assert forall|k: u64| #[trigger] t.contains(EdgeID(k)) == (ids@.take(i as int).contains(EdgeID(k)) || ids@[i as int] == EdgeID(k)) by {
                lemma_push_contains(ids@.take(i as int), ids@[i as int], EdgeID(k));
            }
            assert(map@.edges =~= with_edges_locked(old(map)@, t, on).edges);
        }
        i = i + 1;
    }
    assert(ids@.take(ids@.len() as int) =~= ids@);
}

/// Lock (`on`) or unlock each station of the map that is among the selected
/// stations.
fn mark_stations_locked(map: &mut MetroMap, selected: &[SelectedStation], on: bool)
    ensures
        final(map)@ == with_stations_locked(
            old(map)@,
            selected_ids(selected@.map_values(|s: SelectedStation| s@)),
            on,
        ),
{
    let ghost ids = selected_ids(selected@.map_values(|s: SelectedStation| s@));
    let mut i: usize = 0;
    assert(map@ =~= with_stations_locked(old(map)@, ids.take(0), on));
    while i < selected.len()
        invariant
            i <= selected@.len(),
            ids == selected_ids(selected@.map_values(|s: SelectedStation| s@)),
            ids.len() == selected@.len(),
            map@ == with_stations_locked(old(map)@, ids.take(i as int), on),
        decreases selected@.len() - i,
    {
        let id = selected[i].get_station().get_id();
        assert(id == ids[i as int]);
        match map.get_mut_station(id) {
            Some(s) => {
                if on {
                    s.lock();
                } else {
                    s.unlock();
                }
            },
            None => {},
        }
        proof {
            let t = ids.take(i + 1);
            assert(t =~= ids.take(i as int).push(ids[i as int]));
            assert forall|k: u64| #[trigger] t.contains(StationID(k)) == (ids.take(i as int).contains(StationID(k)) || ids[i as int] == StationID(k)) by {
                lemma_push_contains(ids.take(i as int), ids[i as int], StationID(k));
            }
            assert(map@.stations =~= with_stations_locked(old(map)@, t, on).stations);
        }
        i = i + 1;
    }
    assert(ids.take(ids.len() as int) =~= ids);
}

impl MapState {
    /// Create a new [`MapState`] for the given map, with nothing selected,
    /// no last loaded map, the overlay off and the grid limits at their
    /// defaults (the whole grid).
    pub fn new(map: MetroMap) -> (r: Self)
        ensures
            r@ == (MapStateView {
                map: map@,
                selected_stations: Seq::empty(),
                selected_line: None,
                selected_action: None,
                selected_edges: Seq::empty(),
                grid_x_limits: (i32::MIN, i32::MAX),
                grid_y_limits: (i32::MIN, i32::MAX),
                last_loaded: None,
                original_overlay_enabled: false,
            }),
    {
        let r = MapState {
            map,
            selected_stations: Vec::new(),
            selected_line: None,
            selected_action: None,
            selected_edges: Vec::new(),
            grid_x_limits: (i32::MIN, i32::MAX),
            grid_y_limits: (i32::MIN, i32::MAX),
            last_loaded: None,
            original_overlay_enabled: false,
        };
        assert(r@.selected_stations =~= Seq::<SelectedStationView>::empty());
        r
    }

    /// Clear all selections: stations, line, action and edges (each edge is
    /// marked as no longer selected on the map).
    pub fn clear_all_selections(&mut self)
        requires
            old(self)@.edges_valid(),
        ensures
            final(self)@ == (MapStateView {
                map: with_edges_selected(old(self)@.map, old(self)@.selected_edges, false),
                selected_stations: Seq::empty(),
                selected_line: None,
                selected_action: None,
                selected_edges: Seq::empty(),
                ..old(self)@
            }),
    {
        self.clear_selected_stations();
        self.clear_selected_line();
        self.clear_selected_action();
        self.clear_selected_edges();
    }

    /// A getter for the map.
    pub fn get_map(&self) -> (r: &MetroMap)
        ensures
            r@ == self@.map,
    {
        &self.map
    }

    /// A mutable getter for the map.
    pub fn get_mut_map(&mut self) -> (r: &mut MetroMap)
        ensures
            r@ == old(self)@.map,
            final(self)@ == (MapStateView { map: final(r)@, ..old(self)@ }),
    {
        &mut self.map
    }

    /// A setter for the map.
    pub fn set_map(&mut self, map: MetroMap)
        ensures
            final(self)@ == (MapStateView { map: map@, ..old(self)@ }),
    {
        self.map = map;
    }

    /// A getter for the selected stations.
    pub fn get_selected_stations(&self) -> (r: &[SelectedStation])
        ensures
            r@.map_values(|s: SelectedStation| s@) == self@.selected_stations,
    {
        self.selected_stations.as_slice()
    }

    /// Add a station to the selected stations.
    pub fn select_station(&mut self, station: SelectedStation)
        ensures
            final(self)@ == (MapStateView {
                selected_stations: old(self)@.selected_stations.push(station@),
                ..old(self)@
            }),
    {
        self.selected_stations.push(station);
        assert(self@.selected_stations =~= old(self)@.selected_stations.push(station@));
    }

    /// A setter for the selected stations.
    pub fn set_selected_stations(&mut self, stations: Vec<SelectedStation>)
        ensures
            final(self)@ == (MapStateView {
                selected_stations: stations@.map_values(|s: SelectedStation| s@),
                ..old(self)@
            }),
    {
        self.selected_stations = stations;
    }

    /// Deselect all stations.
    pub fn clear_selected_stations(&mut self)
        ensures
            final(self)@ == (MapStateView { selected_stations: Seq::empty(), ..old(self)@ }),
    {
        self.selected_stations = Vec::new();
        assert(self@.selected_stations =~= Seq::<SelectedStationView>::empty());
    }

    /// If the given node is on a selected object: a selected station stands
    /// on it, or a selected edge goes through it.
    pub fn is_on_selected_object(&self, node: GridNode) -> (r: bool)
        requires
            self@.edges_valid(),
        ensures
            r == on_selected_object(self@, node),
    {
        let ghost sv = self@.selected_stations;
        let mut i: usize = 0;
        while i < self.selected_stations.len()
            invariant
                i <= self.selected_stations@.len(),
                sv == self.selected_stations@.map_values(|s: SelectedStation| s@),
                forall|q: int| 0 <= q < i ==> #[trigger] sv[q].station.pos != node,
            decreases self.selected_stations@.len() - i,
        {
            if self.selected_stations[i].get_pos() == node {
                assert(sv[i as int].station.pos == node);
                return true;
            }
            i = i + 1;
        }
        let mut j: usize = 0;
        while j < self.selected_edges.len()
            invariant
                j <= self.selected_edges@.len(),
                self@.edges_valid(),
                forall|q: int| 0 <= q < i ==> #[trigger] sv[q].station.pos != node,
                i == sv.len(),
                sv == self@.selected_stations,
                forall|q: int|
                    0 <= q < j ==> !#[trigger] edge_visits(
                        self@.map,
                        self@.map.edges[self@.selected_edges[q].0],
                        node,
                    ),
            decreases self.selected_edges@.len() - j,
        {
            assert(self@.map.edges.contains_key(self@.selected_edges[j as int].0));
            let edge = self.map.get_edge(self.selected_edges[j]).unwrap();
            if edge.visits_node(&self.map, node) {
                return true;
            }
            j = j + 1;
        }
        false
    }

    /// A getter for the selected action.
    pub fn get_selected_action(&self) -> (r: Option<ActionType>)
        ensures
            r == self@.selected_action,
    {
        self.selected_action
    }

    /// A setter for the selected action.
    pub fn set_selected_action(&mut self, operation: ActionType)
        ensures
            final(self)@ == (MapStateView { selected_action: Some(operation), ..old(self)@ }),
    {
        self.selected_action = Some(operation);
    }

    /// Set the selected action to none.
    pub fn clear_selected_action(&mut self)
        ensures
            final(self)@ == (MapStateView { selected_action: None, ..old(self)@ }),
    {
        self.selected_action = None;
    }

    /// A mutable getter for the selected stations.
    pub fn get_mut_selected_stations(&mut self) -> (r: &mut [SelectedStation])
        ensures
            r@.map_values(|s: SelectedStation| s@) == old(self)@.selected_stations,
            final(self)@ == (MapStateView {
                selected_stations: final(r)@.map_values(|s: SelectedStation| s@),
                ..old(self)@
            }),
    {
        self.selected_stations.as_mut_slice()
    }

    /// A mutable getter for the selected line.
    pub fn get_mut_selected_line(&mut self) -> (r: Option<&mut SelectedLine>)
        ensures
            match r {
                Some(l) => {
                    &&& old(self)@.selected_line == Some(l@)
                    &&& final(self)@ == (MapStateView { selected_line: Some(final(l)@), ..old(self)@ })
                },
                None => old(self)@.selected_line is None && final(self)@ == old(self)@,
            },
    {
        self.selected_line.as_mut()
    }

    /// A getter for the selected line.
    pub fn get_selected_line(&self) -> (r: Option<&SelectedLine>)
        ensures
            match r {
                Some(l) => self@.selected_line == Some(l@),
                None => self@.selected_line is None,
            },
    {
        self.selected_line.as_ref()
    }

    /// A setter for the selected line.
    pub fn set_selected_line(&mut self, line: SelectedLine)
        ensures
            final(self)@ == (MapStateView { selected_line: Some(line@), ..old(self)@ }),
    {
        self.selected_line = Some(line);
    }

    /// Set the selected line to none.
    pub fn clear_selected_line(&mut self)
        ensures
            final(self)@ == (MapStateView { selected_line: None, ..old(self)@ }),
    {
        self.selected_line = None;
    }

    /// A getter for the selected edges.
    pub fn get_selected_edges(&self) -> (r: &[EdgeID])
        ensures
            r@ == self@.selected_edges,
    {
        self.selected_edges.as_slice()
    }

    /// Select an edge of the map: it is marked as selected and added to the
    /// selected edges.
    pub fn select_edge(&mut self, edge: EdgeID)
        requires
            old(self)@.map.edges.contains_key(edge.0),
        ensures
            final(self)@ == (MapStateView {
                map: with_edges_selected(old(self)@.map, seq![edge], true),
                selected_edges: old(self)@.selected_edges.push(edge),
                ..old(self)@
            }),
    {
        let one = [edge];
        assert(one@ =~= seq![edge]);
        mark_edges_selected(&mut self.map, &one, true);
        self.selected_edges.push(edge);
    }

    /// Select exactly the given edges: the selected edges are first
    /// deselected, then each given edge is marked as selected.
    pub fn set_selected_edges(&mut self, edges: Vec<EdgeID>)
        requires
            old(self)@.edges_valid(),
            forall|i: int| 0 <= i < edges@.len() ==> old(self)@.map.edges.contains_key(#[trigger] edges@[i].0),
        ensures
            final(self)@ == (MapStateView {
                map: with_edges_selected(
                    with_edges_selected(old(self)@.map, old(self)@.selected_edges, false),
                    edges@,
                    true,
                ),
                selected_edges: edges@,
                ..old(self)@
            }),
    {
        self.clear_selected_edges();
        mark_edges_selected(&mut self.map, edges.as_slice(), true);
        self.selected_edges = edges;
    }

    /// Deselect all selected edges: each is marked as no longer selected on
    /// the map.
    pub fn clear_selected_edges(&mut self)
        requires
            old(self)@.edges_valid(),
        ensures
            final(self)@ == (MapStateView {
                map: with_edges_selected(old(self)@.map, old(self)@.selected_edges, false),
                selected_edges: Seq::empty(),
                ..old(self)@
            }),
    {
        mark_edges_selected(&mut self.map, self.selected_edges.as_slice(), false);
        self.selected_edges = Vec::new();
    }

    /// Lock all selected edges and the stations of the map that are
    /// selected.
    pub fn lock_selected(&mut self)
        requires
            old(self)@.edges_valid(),
        ensures
            final(self)@ == (MapStateView {
                map: with_stations_locked(
                    with_edges_locked(old(self)@.map, old(self)@.selected_edges, true),
                    selected_ids(old(self)@.selected_stations),
                    true,
                ),
                ..old(self)@
            }),
    {
        mark_edges_locked(&mut self.map, self.selected_edges.as_slice(), true);
        mark_stations_locked(&mut self.map, self.selected_stations.as_slice(), true);
    }

    /// Unlock all selected edges and the stations of the map that are
    /// selected.
    pub fn unlock_selected(&mut self)
        requires
            old(self)@.edges_valid(),
        ensures
            final(self)@ == (MapStateView {
                map: with_stations_locked(
                    with_edges_locked(old(self)@.map, old(self)@.selected_edges, false),
                    selected_ids(old(self)@.selected_stations),
                    false,
                ),
                ..old(self)@
            }),
    {
        mark_edges_locked(&mut self.map, self.selected_edges.as_slice(), false);
        mark_stations_locked(&mut self.map, self.selected_stations.as_slice(), false);
    }

    /// A getter for the last loaded map.
    pub fn get_last_loaded(&self) -> (r: Option<&MetroMap>)
        ensures
            match r {
                Some(m) => self@.last_loaded == Some(m@),
                None => self@.last_loaded is None,
            },
    {
        self.last_loaded.as_ref()
    }

    /// A setter for the last loaded map.
    pub fn set_last_loaded(&mut self, map: MetroMap)
        ensures
            final(self)@ == (MapStateView { last_loaded: Some(map@), ..old(self)@ }),
    {
        self.last_loaded = Some(map);
    }

    /// If the last loaded map is overlaid on the current map.
    pub fn is_original_overlay_enabled(&self) -> (r: bool)
        ensures
            r == self@.original_overlay_enabled,
    {
        self.original_overlay_enabled
    }

    /// A setter for the overlay of the last loaded map.
    pub fn set_original_overlay_enabled(&mut self, enabled: bool)
        ensures
            final(self)@ == (MapStateView { original_overlay_enabled: enabled, ..old(self)@ }),
    {
        self.original_overlay_enabled = enabled;
    }

    /// The smallest and largest x and y coordinates the layout algorithm
    /// may use.
    pub fn get_grid_limits(&self) -> (r: ((i32, i32), (i32, i32)))
        ensures
            r == (self@.grid_x_limits, self@.grid_y_limits),
    {
        (self.grid_x_limits, self.grid_y_limits)
    }
}

impl MapState {
    /// Recalculate the grid limits of the layout algorithm from the
    /// current map: two nodes beyond the stations in each direction.
    pub fn calculate_algorithm_settings(&mut self)
        requires
            old(self)@.map.wf(),
            stations_inside_limits(old(self)@.map),
        ensures
            final(self)@ == (MapStateView {
                grid_x_limits: final(self)@.grid_x_limits,
                grid_y_limits: final(self)@.grid_y_limits,
                ..old(self)@
            }),
            limits_fit(old(self)@.map, final(self)@.grid_x_limits, final(self)@.grid_y_limits),
    {
        let ghost m = self@.map;
        let keys = self.map.station_ids();
        let mut x_limits: (i32, i32) = (i32::MAX, i32::MIN);
        let mut y_limits: (i32, i32) = (i32::MAX, i32::MIN);
        let mut i: usize = 0;
        while i < keys.len()
            invariant
                i <= keys@.len(),
                m == self@.map,
                m.wf(),
                stations_inside_limits(m),
                forall|j: int| 0 <= j < keys@.len() ==> m.stations.contains_key(#[trigger] keys@[j].0),
                i == 0 ==> x_limits == (i32::MAX, i32::MIN) && y_limits == (i32::MAX, i32::MIN),
                forall|j: int|
                    0 <= j < i ==> x_limits.0 <= #[trigger] m.stations[keys@[j].0].pos.0 <= x_limits.1
                        && y_limits.0 <= m.stations[keys@[j].0].pos.1 <= y_limits.1,
                i > 0 ==> exists|j: int| 0 <= j < i && #[trigger] m.stations[keys@[j].0].pos.0 == x_limits.0,
                i > 0 ==> exists|j: int| 0 <= j < i && #[trigger] m.stations[keys@[j].0].pos.0 == x_limits.1,
                i > 0 ==> exists|j: int| 0 <= j < i && #[trigger] m.stations[keys@[j].0].pos.1 == y_limits.0,
                i > 0 ==> exists|j: int| 0 <= j < i && #[trigger] m.stations[keys@[j].0].pos.1 == y_limits.1,
            decreases keys@.len() - i,
        {
            assert(m.stations.contains_key(keys@[i as int].0));
            let pos = self.map.get_station(keys[i]).unwrap().get_pos();
            assert(pos == m.stations[keys@[i as int].0].pos);
            if pos.0 < x_limits.0 {
                x_limits.0 = pos.0;
            }
            if pos.0 > x_limits.1 {
                x_limits.1 = pos.0;
            }
            if pos.1 < y_limits.0 {
                y_limits.0 = pos.1;
            }
            if pos.1 > y_limits.1 {
                y_limits.1 = pos.1;
            }
            i = i + 1;
        }
        proof {
            if keys@.len() == 0 {
                assert forall|k: u64| !m.stations.contains_key(k) by {
                    if m.stations.contains_key(k) {
                        assert(keys@.contains(StationID(k)));
                    }
                }
                assert(m.stations.dom() =~= Set::<u64>::empty());
            } else {
                assert(m.stations.contains_key(keys@[0].0));
                assert(!m.stations.dom().is_empty());
                assert forall|k: u64| #[trigger] m.stations.contains_key(k) implies x_limits.0 <= m.stations[k].pos.0 <= x_limits.1
                    && y_limits.0 <= m.stations[k].pos.1 <= y_limits.1 by {
                    assert(keys@.contains(StationID(k)));
                    let j = choose|j: int| 0 <= j < keys@.len() && keys@[j] == StationID(k);
                    assert(m.stations[keys@[j].0].pos.0 <= x_limits.1);
                }
                let j0 = choose|j: int| 0 <= j < keys@.len() && #[trigger] m.stations[keys@[j].0].pos.0 == x_limits.0;
                assert(m.stations.contains_key(keys@[j0].0));
                let j1 = choose|j: int| 0 <= j < keys@.len() && #[trigger] m.stations[keys@[j].0].pos.0 == x_limits.1;
                assert(m.stations.contains_key(keys@[j1].0));
                let j2 = choose|j: int| 0 <= j < keys@.len() && #[trigger] m.stations[keys@[j].0].pos.1 == y_limits.0;
                assert(m.stations.contains_key(keys@[j2].0));
                let j3 = choose|j: int| 0 <= j < keys@.len() && #[trigger] m.stations[keys@[j].0].pos.1 == y_limits.1;
                assert(m.stations.contains_key(keys@[j3].0));
            }
        }
        self.grid_x_limits = (x_limits.0 - 2, x_limits.1 + 2);
        self.grid_y_limits = (y_limits.0 - 2, y_limits.1 + 2);
    }
}

/// What occupies a node of the grid outside a partial map.
#[derive(Clone, Copy, Debug, PartialEq, Eq, Structural)]
pub enum Occupant {
    /// A station stands on the node.
    Station(StationID),
    /// An edge goes through the node.
    Edge(EdgeID),
}

/// The numbers of the stations at the ends of the selected edges.
pub open spec fn ends_of_selected(m: MetroMapView, sel: Seq<EdgeID>) -> Set<u64> {
    Set::new(
        |k: u64|
            exists|i: int|
                0 <= i < sel.len() && (#[trigger] m.edges[sel[i].0].from.0 == k || m.edges[sel[i].0].to.0
                    == k),
    )
}

/// The numbers of the lines that use a selected edge.
pub open spec fn lines_of_selected(m: MetroMapView, sel: Seq<EdgeID>) -> Set<u64> {
    Set::new(
        |k: u64|
            exists|i: int, j: int|
                0 <= i < sel.len() && 0 <= j < m.edges[sel[i].0].lines.len() && #[trigger] m.edges[sel[
                    i
                ].0].lines[j].0 == k,
    )
}

/// The stations of the partial map are the two ends of every selected
/// edge and nothing else; its lines are every line of every selected edge
/// and nothing else.
pub proof fn lemma_selected_parts(m: MetroMapView, sel: Seq<EdgeID>)
    ensures
        forall|i: int|
            0 <= i < sel.len() ==> ends_of_selected(m, sel).contains(m.edges[(#[trigger] sel[i]).0].from.0)
                && ends_of_selected(m, sel).contains(m.edges[sel[i].0].to.0),
        forall|k: u64| #[trigger]
            ends_of_selected(m, sel).contains(k) ==> exists|i: int|
                0 <= i < sel.len() && (m.edges[(#[trigger] sel[i]).0].from.0 == k || m.edges[sel[i].0].to.0 == k),
        forall|i: int, j: int|
            0 <= i < sel.len() && 0 <= j < m.edges[sel[i].0].lines.len() ==> lines_of_selected(m, sel).contains(
                #[trigger] m.edges[sel[i].0].lines[j].0,
            ),
        forall|l: u64| #[trigger]
            lines_of_selected(m, sel).contains(l) ==> exists|i: int|
                0 <= i < sel.len() && m.edges[(#[trigger] sel[i]).0].lines.contains(LineID(l)),
{
    assert forall|i: int| 0 <= i < sel.len() implies ends_of_selected(m, sel).contains(m.edges[(#[trigger] sel[i]).0].from.0)
        && ends_of_selected(m, sel).contains(m.edges[sel[i].0].to.0) by {
        assert(m.edges[sel[i].0].from.0 == m.edges[sel[i].0].from.0);
    }
    assert forall|l: u64| #[trigger] lines_of_selected(m, sel).contains(l) implies exists|i: int|
        0 <= i < sel.len() && m.edges[(#[trigger] sel[i]).0].lines.contains(LineID(l)) by {
        let (i, j) = choose|i: int, j: int|
            0 <= i < sel.len() && 0 <= j < m.edges[sel[i].0].lines.len() && #[trigger] m.edges[sel[i].0].lines[j].0 == l;
        assert(m.edges[sel[i].0].lines[j] == LineID(l));
    }
}

/// Marking edges as selected or not marks exactly the given edges of the
/// map and changes nothing else.
pub proof fn lemma_edges_marked(m: MetroMapView, ids: Seq<EdgeID>, on: bool)
    ensures
        with_edges_selected(m, ids, on).edges.dom() == m.edges.dom(),
        with_edges_selected(m, ids, on).stations == m.stations,
        with_edges_selected(m, ids, on).lines == m.lines,
        forall|k: u64|
            #[trigger] m.edges.contains_key(k) && ids.contains(EdgeID(k)) ==> with_edges_selected(m, ids, on).edges[k]
                == (EdgeView { is_selected: on, ..m.edges[k] }),
        forall|k: u64|
            #[trigger] m.edges.contains_key(k) && !ids.contains(EdgeID(k)) ==> with_edges_selected(m, ids, on).edges[k]
                == m.edges[k],
{
    assert(with_edges_selected(m, ids, on).edges.dom() =~= m.edges.dom());
}

/// If `v` holds strictly ascending numbers.
pub open spec fn ascending(v: Seq<u64>) -> bool {
    forall|i: int, j: int| 0 <= i < j < v.len() ==> v[i] < v[j]
}

/// Put `x` into the ascending numbers `v`, unless it is there.
fn insert_ascending(v: &mut Vec<u64>, x: u64)
    requires
        ascending(old(v)@),
    ensures
        ascending(final(v)@),
        forall|y: u64| #[trigger] final(v)@.contains(y) <==> old(v)@.contains(y) || y == x,
{
    let mut p: usize = 0;
    while p < v.len() && v[p] < x
        invariant
            p <= v@.len(),
            v@ == old(v)@,
            forall|j: int| 0 <= j < p ==> v@[j] < x,
        decreases v@.len() - p,
    {
        p = p + 1;
    }
    if p < v.len() && v[p] == x {
        assert(v@.contains(x) && v@[p as int] == x);
        return;
    }
    v.insert(p, x);
    proof {
        let o = old(v)@;
        let n = v@;
        assert forall|i: int, j: int| 0 <= i < j < n.len() implies n[i] < n[j] by {
            if j < p {
                assert(n[i] == o[i] && n[j] == o[j]);
            } else if j == p {
                assert(n[i] == o[i]);
            } else if i < p {
                assert(n[i] == o[i] && n[j] == o[j - 1]);
            } else if i == p {
                assert(n[j] == o[j - 1]);
                assert(o[p as int] >= x);
                if j - 1 > p {
                    assert(o[p as int] < o[j - 1]);
                }
            } else {
                assert(n[i] == o[i - 1] && n[j] == o[j - 1]);
            }
        }
        assert forall|y: u64| #[trigger] n.contains(y) <==> o.contains(y) || y == x by {
            if n.contains(y) {
                let q = choose|q: int| 0 <= q < n.len() && n[q] == y;
                if q < p {
                    assert(o[q] == y);
                } else if q > p {
                    assert(o[q - 1] == y);
                }
            }
            if o.contains(y) {
                let q = choose|q: int| 0 <= q < o.len() && o[q] == y;
                if q < p {
                    assert(n[q] == y);
                } else {
                    assert(n[q + 1] == y);
                }
            }
            if y == x {
                assert(n[p as int] == x);
            }
        }
    }
}

impl MapState {
    /// The numbers of the stations at the ends of the selected edges, and
    /// of the lines that use the selected edges, each in ascending order.
    fn selected_parts(&self) -> (r: (Vec<u64>, Vec<u64>))
        requires
            self@.edges_valid(),
        ensures
            ascending(r.0@),
            ascending(r.1@),
            forall|k: u64| #[trigger] r.0@.contains(k) <==> ends_of_selected(self@.map, self@.selected_edges).contains(k),
            forall|k: u64| #[trigger] r.1@.contains(k) <==> lines_of_selected(self@.map, self@.selected_edges).contains(k),
    {
        let ghost m = self@.map;
        let ghost sel = self@.selected_edges;
        let mut stations: Vec<u64> = Vec::new();
        let mut lines: Vec<u64> = Vec::new();
        let mut i: usize = 0;
        while i < self.selected_edges.len()
            invariant
                i <= sel.len(),
                m == self@.map,
                sel == self@.selected_edges,
                self@.edges_valid(),
                ascending(stations@),
                ascending(lines@),
                forall|k: u64| #[trigger] stations@.contains(k) <==> exists|q: int|
                    0 <= q < i && (#[trigger] m.edges[sel[q].0].from.0 == k || m.edges[sel[q].0].to.0 == k),
                forall|k: u64| #[trigger] lines@.contains(k) <==> exists|q: int, j: int|
                    0 <= q < i && 0 <= j < m.edges[sel[q].0].lines.len() && #[trigger] m.edges[sel[q].0].lines[j].0 == k,
            decreases sel.len() - i,
        {
            assert(m.edges.contains_key(sel[i as int].0));
            let edge = self.map.get_edge(self.selected_edges[i]).unwrap();
            insert_ascending(&mut stations, edge.get_from().0);
            insert_ascending(&mut stations, edge.get_to().0);
            let ls = edge.get_lines();
            let ghost lines_before = lines@;
            let mut j: usize = 0;
            while j < ls.len()
                invariant
                    j <= ls@.len(),
                    ls@ == m.edges[sel[i as int].0].lines,
                    ascending(lines@),
                    forall|k: u64| #[trigger] lines@.contains(k) <==> lines_before.contains(k) || exists|t: int|
                        0 <= t < j && #[trigger] ls@[t].0 == k,
                decreases ls@.len() - j,
            {
                insert_ascending(&mut lines, ls[j].0);
                j = j + 1;
            }
            proof {
                assert forall|k: u64| #[trigger] stations@.contains(k) <==> exists|q: int|
                    0 <= q < i + 1 && (#[trigger] m.edges[sel[q].0].from.0 == k || m.edges[sel[q].0].to.0 == k) by {
                    if stations@.contains(k) && (k == m.edges[sel[i as int].0].from.0 || k == m.edges[sel[i as int].0].to.0) {
                        assert(m.edges[sel[i as int].0].from.0 == k || m.edges[sel[i as int].0].to.0 == k);
                    }
                }
                assert forall|k: u64| #[trigger] lines@.contains(k) <==> exists|q: int, t: int|
                    0 <= q < i + 1 && 0 <= t < m.edges[sel[q].0].lines.len() && #[trigger] m.edges[sel[q].0].lines[t].0 == k by {
                    if lines@.contains(k) && !lines_before.contains(k) {
                        let t = choose|t: int| 0 <= t < ls@.len() && #[trigger] ls@[t].0 == k;
                        assert(m.edges[sel[i as int].0].lines[t].0 == k);
                    }
                    if exists|q: int, t: int|
                        0 <= q < i + 1 && 0 <= t < m.edges[sel[q].0].lines.len() && #[trigger] m.edges[sel[q].0].lines[t].0 == k {
                        let (q, t) = choose|q: int, t: int|
                            0 <= q < i + 1 && 0 <= t < m.edges[sel[q].0].lines.len() && #[trigger] m.edges[sel[q].0].lines[t].0 == k;
                        if q == i {
                            assert(ls@[t].0 == k);
                        }
                    }
                }
            }
            i = i + 1;
        }
        proof {
            assert forall|k: u64| #[trigger] stations@.contains(k) <==> ends_of_selected(m, sel).contains(k) by {}
            assert forall|k: u64| #[trigger] lines@.contains(k) <==> lines_of_selected(m, sel).contains(k) by {}
        }
        (stations, lines)
    }
}

/// If the station with number `k` must be locked in the partial map: it
/// is not selected, or one of its edges is not selected.
pub open spec fn must_lock(v: MapStateView, k: u64) -> bool {
    let s = v.map.stations[k];
    ||| !selected_ids(v.selected_stations).contains(StationID(k))
    ||| exists|i: int| 0 <= i < s.edges.len() && !v.selected_edges.contains(#[trigger] s.edges[i])
}

/// The station with number `k` as it goes into the partial map: without
/// edges, and locked where it must be.
pub open spec fn partial_station(v: MapStateView, k: u64) -> StationView {
    let s = v.map.stations[k];
    StationView { edges: Seq::empty(), is_locked: s.is_locked || must_lock(v, k), ..s }
}

/// A station goes into the partial map at its place, without edges, and
/// locked when it is locked on the map, when it is not selected, or when
/// one of its edges is not selected; a selected station that is not locked
/// and all of whose edges are selected stays unlocked.
pub proof fn lemma_partial_station_locking(v: MapStateView, k: u64)
    ensures
        partial_station(v, k).pos == v.map.stations[k].pos,
        partial_station(v, k).id == v.map.stations[k].id,
        partial_station(v, k).edges.len() == 0,
        v.map.stations[k].is_locked ==> partial_station(v, k).is_locked,
        !selected_ids(v.selected_stations).contains(StationID(k)) ==> partial_station(v, k).is_locked,
        forall|i: int|
            0 <= i < v.map.stations[k].edges.len() && !v.selected_edges.contains(
                #[trigger] v.map.stations[k].edges[i],
            ) ==> partial_station(v, k).is_locked,
        !v.map.stations[k].is_locked && selected_ids(v.selected_stations).contains(StationID(k)) && (forall|i: int|
            0 <= i < v.map.stations[k].edges.len() ==> v.selected_edges.contains(#[trigger] v.map.stations[k].edges[i]))
            ==> !partial_station(v, k).is_locked,
{
    assert forall|i: int|
        0 <= i < v.map.stations[k].edges.len() && !v.selected_edges.contains(
            #[trigger] v.map.stations[k].edges[i],
        ) implies partial_station(v, k).is_locked by {
        assert(must_lock(v, k));
    }
}

impl MapState {
    /// If a station with the id is selected.
    fn is_selected_station(&self, id: StationID) -> (r: bool)
        ensures
            r == selected_ids(self@.selected_stations).contains(id),
    {
        let ghost ids = selected_ids(self@.selected_stations);
        let mut i: usize = 0;
        while i < self.selected_stations.len()
            invariant
                i <= self.selected_stations@.len(),
                ids == selected_ids(self@.selected_stations),
                ids.len() == self.selected_stations@.len(),
                forall|q: int| 0 <= q < i ==> ids[q] != id,
            decreases self.selected_stations@.len() - i,
        {
            if self.selected_stations[i].get_station().get_id() == id {
                assert(ids[i as int] == id);
                return true;
            }
            i = i + 1;
        }
        false
    }

    /// If one of the given edges is not selected.
    fn has_unselected_edge(&self, edges: &[EdgeID]) -> (r: bool)
        ensures
            r == exists|i: int| 0 <= i < edges@.len() && !self@.selected_edges.contains(#[trigger] edges@[i]),
    {
        let mut i: usize = 0;
        while i < edges.len()
            invariant
                i <= edges@.len(),
                forall|q: int| 0 <= q < i ==> self@.selected_edges.contains(#[trigger] edges@[q]),
            decreases edges@.len() - i,
        {
            if !crate::models::contains_edge_id(self.selected_edges.as_slice(), edges[i]) {
                return true;
            }
            i = i + 1;
        }
        false
    }

    /// Add the stations with the given numbers to the partial map, as
    /// [`partial_station`] says.
    fn add_partial_stations(&self, keys: &Vec<u64>, pm: &mut MetroMap)
        requires
            self@.map.wf(),
            forall|i: int| 0 <= i < keys@.len() ==> self@.map.stations.contains_key(#[trigger] keys@[i]),
            old(pm)@.stations == Map::<u64, StationView>::empty(),
            old(pm)@.lines == Map::<u64, LineView>::empty(),
            old(pm)@.edges == Map::<u64, EdgeView>::empty(),
        ensures
            final(pm)@.stations == Map::new(|k: u64| keys@.contains(k), |k: u64| partial_station(self@, k)),
            final(pm)@.lines == Map::<u64, LineView>::empty(),
            final(pm)@.edges == Map::<u64, EdgeView>::empty(),
            final(pm)@.wf(),
            final(pm)@.edges_attached(),
            final(pm)@.lines_valid(),
    {
        let mut i: usize = 0;
        while i < keys.len()
            invariant
                i <= keys@.len(),
                self@.map.wf(),
                forall|q: int| 0 <= q < keys@.len() ==> self@.map.stations.contains_key(#[trigger] keys@[q]),
                pm@.stations == Map::new(|k: u64| keys@.take(i as int).contains(k), |k: u64| partial_station(self@, k)),
                pm@.lines == Map::<u64, LineView>::empty(),
                pm@.edges == Map::<u64, EdgeView>::empty(),
                pm@.wf(),
            decreases keys@.len() - i,
        {
            let k = keys[i];
            assert(self@.map.stations.contains_key(k));
            let mut station = self.map.get_station(StationID(k)).unwrap().clone();
            let lock = !self.is_selected_station(StationID(k)) || self.has_unselected_edge(station.get_edges());
            if lock {
                station.lock();
            }
            station.clear_edges();
            assert(station@ == partial_station(self@, k));
            let ghost before = pm@;
            pm.add_station(station);
            proof {
                let t = keys@.take(i + 1);
                assert(t =~= keys@.take(i as int).push(k));
                assert forall|y: u64| #[trigger] t.contains(y) == (keys@.take(i as int).contains(y) || y == k) by {
                    lemma_push_contains(keys@.take(i as int), k, y);
                }
                assert(pm@.stations =~= Map::new(|y: u64| t.contains(y), |y: u64| partial_station(self@, y)));
            }
            i = i + 1;
        }
        proof {
            assert(keys@.take(keys@.len() as int) =~= keys@);
            assert(pm@.stations =~= Map::new(|k: u64| keys@.contains(k), |k: u64| partial_station(self@, k)));
        }
    }
}

/// The lines of `b` are those of `a` with the same ids, names and colors,
/// each using at least the edges it used in `a`; the edges of `b` are those
/// of `a`, between the same stations; and the stations are the same.
pub open spec fn grown(a: MetroMapView, b: MetroMapView) -> bool {
    &&& b.stations == a.stations
    &&& b.edges.dom() == a.edges.dom()
    &&& forall|k: u64| #[trigger] a.edges.contains_key(k) ==> b.edges[k].from == a.edges[k].from && b.edges[k].to == a.edges[k].to
    &&& b.lines.dom() == a.lines.dom()
    &&& forall|l: u64| #[trigger] a.lines.contains_key(l) ==> {
        &&& b.lines[l].id == a.lines[l].id
        &&& b.lines[l].name == a.lines[l].name
        &&& b.lines[l].color == a.lines[l].color
        &&& forall|e: EdgeID| a.lines[l].edges.contains(e) ==> #[trigger] b.lines[l].edges.contains(e)
    }
}

/// Both ends of every edge of the map list it.
pub open spec fn ends_list_edges(m: MetroMapView) -> bool {
    forall|k: u64| #[trigger]
        m.edges.contains_key(k) ==> m.stations[m.edges[k].from.0].edges.contains(EdgeID(k))
            && m.stations[m.edges[k].to.0].edges.contains(EdgeID(k))
}

/// No two edges of the map join the same two stations.
pub open spec fn one_edge_per_pair(m: MetroMapView) -> bool {
    forall|k1: u64, k2: u64|
        #![trigger m.edges[k1], m.edges[k2]]
        m.edges.contains_key(k1) && m.edges.contains_key(k2) && k1 != k2 ==> !connects(
            m.edges[k2],
            m.edges[k1].from,
            m.edges[k1].to,
        )
}

/// Every line of the map visits both ends of each edge it uses.
pub open spec fn lines_visit_ends(m: MetroMapView) -> bool {
    forall|l: u64, i: int|
        #![trigger m.lines[l].edges[i]]
        m.lines.contains_key(l) && 0 <= i < m.lines[l].edges.len() ==> m.lines[l].stations.contains(
            m.edges[m.lines[l].edges[i].0].from,
        ) && m.lines[l].stations.contains(m.edges[m.lines[l].edges[i].0].to)
}

/// Every edge that a line of the map uses lists that line.
pub open spec fn edges_list_lines(m: MetroMapView) -> bool {
    forall|l: u64, i: int|
        #![trigger m.lines[l].edges[i]]
        m.lines.contains_key(l) && 0 <= i < m.lines[l].edges.len() ==> m.edges[m.lines[l].edges[i].0].lines.contains(
            LineID(l),
        )
}

/// Ids in strictly ascending order are in ascending order.
proof fn lemma_strictly_sorted(s: Seq<LineID>)
    requires
        strictly_sorted_ids(s),
    ensures
        sorted_ids(s),
{
}

/// One line of the partial map taking the edge `id` (first on the line, then
/// on the map) keeps the lines' and the edges' lists in step, and gives the
/// edge that line and nothing else.
#[verifier::spinoff_prover]
proof fn lemma_attach_step(
    before: MetroMapView,
    mid: MetroMapView,
    f: MetroMapView,
    l0: LineView,
    lv: LineView,
    id: EdgeID,
)
    requires
        before.wf(),
        before.lines_valid(),
        before.edges.contains_key(id.0),
        before.lines.contains_key(l0.id.0),
        l0 == before.lines[l0.id.0],
        edges_list_lines(before),
        lines_visit_ends(before),
        l0.edges.contains(id) ==> lv == l0 && mid == before,
        !l0.edges.contains(id) ==> mid == (MetroMapView {
            edges: before.edges.insert(
                id.0,
                EdgeView { lines: lines_with(before.edges[id.0].lines, l0.id), ..before.edges[id.0] },
            ),
            ..before
        }) && lv == line_with_edge(l0, id, before.edges[id.0].from, before.edges[id.0].to),
        f == with_line(mid, lv),
    ensures
        edges_list_lines(f),
        lines_visit_ends(f),
        f.edges.dom() == before.edges.dom(),
        forall|k: u64| k != id.0 && #[trigger] before.edges.contains_key(k) ==> f.edges[k].lines == before.edges[k].lines,
        forall|x: LineID| #[trigger] f.edges[id.0].lines.contains(x) <==> before.edges[id.0].lines.contains(x) || x == l0.id,
{
    let lid = l0.id;
    assert(lid == LineID(lid.0));
    lemma_strictly_sorted(before.edges[id.0].lines);
    lemma_lines_with_members(before.edges[id.0].lines, lid);
    assert(mid.edges.dom() =~= before.edges.dom());
    assert(f.edges.dom() =~= before.edges.dom());
    assert forall|k: u64| #[trigger] mid.edges.contains_key(k) implies mid.edges[k].from == before.edges[k].from
        && mid.edges[k].to == before.edges[k].to && (k != id.0 ==> mid.edges[k] == before.edges[k]) && (forall|x: LineID|
        before.edges[k].lines.contains(x) ==> #[trigger] mid.edges[k].lines.contains(x)) by {
    }
    assert(mid.edges[id.0].lines.contains(lid)) by {
        if l0.edges.contains(id) {
            let p = choose|p: int| 0 <= p < l0.edges.len() && l0.edges[p] == id;
            assert(before.lines[lid.0].edges[p] == id);
        }
    }
    assert forall|k: u64| #[trigger] f.edges.contains_key(k) implies f.edges[k].from == before.edges[k].from
        && f.edges[k].to == before.edges[k].to && (forall|x: LineID|
        before.edges[k].lines.contains(x) ==> #[trigger] f.edges[k].lines.contains(x)) && (lv.edges.contains(EdgeID(k)) ==> f.edges[k].lines.contains(lid)) by {
        if lv.edges.contains(EdgeID(k)) && k != id.0 {
            lemma_strictly_sorted(before.edges[k].lines);
            lemma_lines_with_members(mid.edges[k].lines, lid);
        }
    }
    assert forall|k: u64| k != id.0 && #[trigger] before.edges.contains_key(k) implies f.edges[k].lines == before.edges[k].lines by {
        if lv.edges.contains(EdgeID(k)) {
            assert(l0.edges.contains(EdgeID(k))) by {
                if !l0.edges.contains(id) {
                    let p = choose|p: int| 0 <= p < lv.edges.len() && lv.edges[p] == EdgeID(k);
                    if p == l0.edges.len() {
                        assert(lv.edges[p] == id);
                    } else {
                        assert(l0.edges[p] == EdgeID(k));
                    }
                }
            }
            let p = choose|p: int| 0 <= p < l0.edges.len() && l0.edges[p] == EdgeID(k);
            assert(before.lines[lid.0].edges[p] == EdgeID(k));
            assert(before.edges[k].lines.contains(LineID(lid.0)));
        }
    }
    assert(lv.edges.contains(id)) by {
        if !l0.edges.contains(id) {
            assert(lv.edges[l0.edges.len() as int] == id);
        }
    }
    assert forall|x: LineID| #[trigger] f.edges[id.0].lines.contains(x) <==> before.edges[id.0].lines.contains(x) || x == lid by {
        if l0.edges.contains(id) {
            let p = choose|p: int| 0 <= p < l0.edges.len() && l0.edges[p] == id;
            assert(before.lines[lid.0].edges[p] == id);
        }
    }
    assert forall|l: u64, i: int| f.lines.contains_key(l) && 0 <= i < f.lines[l].edges.len() implies #[trigger] f.edges[f.lines[l].edges[i].0].lines.contains(
        LineID(l)) && f.lines[l].stations.contains(f.edges[f.lines[l].edges[i].0].from) && f.lines[l].stations.contains(
        f.edges[f.lines[l].edges[i].0].to) by {
        let e = f.lines[l].edges[i];
        if l == lid.0 {
            assert(f.lines[l] == lv);
            assert(lv.edges.contains(e));
            if l0.edges.contains(id) {
                assert(before.lines[l].edges[i] == e);
            } else if i < l0.edges.len() {
                assert(before.lines[l].edges[i] == e);
                lemma_push_once_contains(l0.stations, before.edges[id.0].from, before.edges[e.0].from);
                lemma_push_once_contains(push_once(l0.stations, before.edges[id.0].from), before.edges[id.0].to, before.edges[e.0].from);
                lemma_push_once_contains(l0.stations, before.edges[id.0].from, before.edges[e.0].to);
                lemma_push_once_contains(push_once(l0.stations, before.edges[id.0].from), before.edges[id.0].to, before.edges[e.0].to);
            } else {
                assert(e == id);
                lemma_push_once_contains(l0.stations, before.edges[id.0].from, before.edges[id.0].from);
                lemma_push_once_contains(push_once(l0.stations, before.edges[id.0].from), before.edges[id.0].to, before.edges[id.0].from);
                lemma_push_once_contains(push_once(l0.stations, before.edges[id.0].from), before.edges[id.0].to, before.edges[id.0].to);
            }
        } else {
            assert(f.lines[l] == before.lines[l]);
            assert(before.lines[l].edges[i] == e);
            assert(before.edges.contains_key(e.0));
        }
    }
}

/// Let each of the given lines of the map use the edge `id`.
fn attach_to_lines(pm: &mut MetroMap, id: EdgeID, lines: &[LineID])
    requires
        old(pm)@.wf(),
        old(pm)@.edges_attached(),
        old(pm)@.lines_valid(),
        old(pm)@.edges.contains_key(id.0),
        forall|j: int| 0 <= j < lines@.len() ==> old(pm)@.lines.contains_key(#[trigger] lines@[j].0),
        edges_list_lines(old(pm)@),
        lines_visit_ends(old(pm)@),
    ensures
        final(pm)@.wf(),
        final(pm)@.edges_attached(),
        final(pm)@.lines_valid(),
        grown(old(pm)@, final(pm)@),
        forall|j: int| 0 <= j < lines@.len() ==> final(pm)@.lines[#[trigger] lines@[j].0].edges.contains(id),
        edges_list_lines(final(pm)@),
        lines_visit_ends(final(pm)@),
        forall|k: u64| k != id.0 && #[trigger] old(pm)@.edges.contains_key(k) ==> final(pm)@.edges[k].lines == old(pm)@.edges[k].lines,
        forall|x: LineID| #[trigger] final(pm)@.edges[id.0].lines.contains(x) <==> old(pm)@.edges[id.0].lines.contains(x)
            || lines@.contains(x),
{
    let mut j: usize = 0;
    while j < lines.len()
        invariant
            j <= lines@.len(),
            pm@.wf(),
            pm@.edges_attached(),
            pm@.lines_valid(),
            pm@.edges.contains_key(id.0),
            grown(old(pm)@, pm@),
            forall|q: int| 0 <= q < lines@.len() ==> old(pm)@.lines.contains_key(#[trigger] lines@[q].0),
            forall|q: int| 0 <= q < j ==> pm@.lines[#[trigger] lines@[q].0].edges.contains(id),
            edges_list_lines(pm@),
            lines_visit_ends(pm@),
            forall|k: u64| k != id.0 && #[trigger] old(pm)@.edges.contains_key(k) ==> pm@.edges[k].lines == old(pm)@.edges[k].lines,
            forall|x: LineID| #[trigger] pm@.edges[id.0].lines.contains(x) <==> old(pm)@.edges[id.0].lines.contains(x)
                || lines@.take(j as int).contains(x),
        decreases lines@.len() - j,
    {
        let l = lines[j];
        let ghost before = pm@;
        assert(lines@.take(j as int).contains(l) ==> before.edges[id.0].lines.contains(l));
        assert(before.lines.contains_key(l.0));
        let mut line = pm.get_line(l).unwrap().clone();
        proof {
            assert forall|i: int| 0 <= i < line@.edges.len() implies before.edges.contains_key(#[trigger] line@.edges[i].0) by {
                assert(before.lines[l.0].edges[i] == line@.edges[i]);
            }
        }
        let ghost l0 = line@;
        line.add_edge(id, pm);
        let ghost mid = pm@;
        let ghost lv = line@;
        proof {
            assert(line@.edges.contains(id)) by {
                if !before.lines[l.0].edges.contains(id) {
                    assert(line@.edges[line@.edges.len() - 1] == id);
                }
            }
            assert forall|i: int| 0 <= i < line@.edges.len() implies mid.edges.contains_key(#[trigger] line@.edges[i].0) by {}
        }
        pm.add_line(line);
        proof {
            let f = pm@;
            assert(before.lines[l.0].id == l);
            assert forall|e: EdgeID| before.lines[l.0].edges.contains(e) implies #[trigger] f.lines[l.0].edges.contains(e) by {
                if !before.lines[l.0].edges.contains(id) {
                    let p = choose|p: int| 0 <= p < before.lines[l.0].edges.len() && before.lines[l.0].edges[p] == e;
                    assert(f.lines[l.0].edges[p] == e);
                }
            }
            assert forall|k: u64| #[trigger] old(pm)@.edges.contains_key(k) implies f.edges[k].from == old(pm)@.edges[k].from
                && f.edges[k].to == old(pm)@.edges[k].to by {
                assert(before.edges.contains_key(k));
            }
            assert forall|m: u64| #[trigger] old(pm)@.lines.contains_key(m) implies {
                &&& f.lines[m].id == old(pm)@.lines[m].id
                &&& f.lines[m].name == old(pm)@.lines[m].name
                &&& f.lines[m].color == old(pm)@.lines[m].color
                &&& forall|e: EdgeID| old(pm)@.lines[m].edges.contains(e) ==> #[trigger] f.lines[m].edges.contains(e)
            } by {
                assert(before.lines.contains_key(m));
            }
            assert(f.edges.dom() =~= old(pm)@.edges.dom());
            assert(f.lines.dom() =~= old(pm)@.lines.dom());
            assert forall|q: int| 0 <= q < j + 1 implies f.lines[#[trigger] lines@[q].0].edges.contains(id) by {
                if q < j && lines@[q].0 != l.0 {
                    assert(before.lines[lines@[q].0].edges.contains(id));
                }
            }
            assert(l0 == before.lines[l0.id.0]);
            lemma_attach_step(before, mid, f, l0, lv, id);
            assert forall|k: u64| k != id.0 && #[trigger] old(pm)@.edges.contains_key(k) implies f.edges[k].lines == old(pm)@.edges[k].lines by {
                assert(before.edges.contains_key(k));
            }
            assert forall|x: LineID| #[trigger] f.edges[id.0].lines.contains(x) <==> old(pm)@.edges[id.0].lines.contains(x)
                || lines@.take(j + 1).contains(x) by {
                lemma_push_contains(lines@.take(j as int), l, x);
                assert(lines@.take(j + 1) =~= lines@.take(j as int).push(l));
            }
        }
        j = j + 1;
    }
    assert(lines@.take(lines@.len() as int) =~= lines@);
}

/// `b` is the station `a` with, at most, other edges.
pub open spec fn same_but_edges(a: StationView, b: StationView) -> bool {
    b == StationView { edges: b.edges, ..a }
}

/// The partial map has an edge `k` joining the ends of the selected edge at
/// position `q`, and every line of that selected edge uses it.
pub open spec fn stands_for(v: MapStateView, pm: MetroMapView, q: int, k: u64) -> bool {
    let e = v.map.edges[v.selected_edges[q].0];
    &&& pm.edges.contains_key(k)
    &&& connects(pm.edges[k], e.from, e.to)
    &&& forall|j: int| 0 <= j < e.lines.len() ==> #[trigger] pm.lines[e.lines[j].0].edges.contains(EdgeID(k))
}

/// Some edge of the partial map stands for the selected edge at position
/// `q`.
pub open spec fn represented(v: MapStateView, pm: MetroMapView, q: int) -> bool {
    exists|k: u64| #[trigger] stands_for(v, pm, q, k)
}

/// Add the lines with the given numbers to the partial map, without edges.
fn add_partial_lines(keys: &Vec<u64>, pm: &mut MetroMap, ids: &mut IDManager)
    requires
        old(pm)@.wf(),
        old(pm)@.edges_attached(),
        old(pm)@.lines_valid(),
        old(pm)@.lines == Map::<u64, LineView>::empty(),
    ensures
        final(pm)@.lines == Map::new(|k: u64| keys@.contains(k), |k: u64| empty_line_view(LineID(k))),
        final(pm)@.stations == old(pm)@.stations,
        final(pm)@.edges == old(pm)@.edges,
        final(pm)@.wf(),
        final(pm)@.edges_attached(),
        final(pm)@.lines_valid(),
        *final(ids) == *old(ids),
{
    let mut i: usize = 0;
    while i < keys.len()
        invariant
            i <= keys@.len(),
            pm@.lines == Map::new(|k: u64| keys@.take(i as int).contains(k), |k: u64| empty_line_view(LineID(k))),
            pm@.stations == old(pm)@.stations,
            pm@.edges == old(pm)@.edges,
            pm@.wf(),
            pm@.edges_attached(),
            pm@.lines_valid(),
            *ids == *old(ids),
        decreases keys@.len() - i,
    {
        let k = keys[i];
        let line = Line::new(Some(LineID(k)), ids);
        assert(line@ == empty_line_view(LineID(k)));
        let ghost before = pm@;
        pm.add_line(line);
        proof {
            let t = keys@.take(i + 1);
            assert(t =~= keys@.take(i as int).push(k));
            assert forall|y: u64| #[trigger] t.contains(y) == (keys@.take(i as int).contains(y) || y == k) by {
                lemma_push_contains(keys@.take(i as int), k, y);
            }
            assert(pm@.lines =~= Map::new(|y: u64| t.contains(y), |y: u64| empty_line_view(LineID(y))));
            assert(pm@.edges =~= before.edges);
        }
        i = i + 1;
    }
    proof {
        assert(keys@.take(keys@.len() as int) =~= keys@);
        assert(pm@.lines =~= Map::new(|k: u64| keys@.contains(k), |k: u64| empty_line_view(LineID(k))));
    }
}

impl MapState {
    /// Give the partial map, for each selected edge, the edge between its
    /// ends (made where the partial map has none), used by each of its lines.
    #[verifier::rlimit(40)]
    fn add_partial_edges(&self, pm: &mut MetroMap, ids: &mut IDManager)
        requires
            self@.edges_valid(),
            self@.map.wf(),
            old(pm)@.wf(),
            old(pm)@.edges_attached(),
            old(pm)@.lines_valid(),
            old(pm)@.edges == Map::<u64, EdgeView>::empty(),
            forall|l: u64| #[trigger] old(pm)@.lines.contains_key(l) ==> old(pm)@.lines[l].edges.len() == 0,
            forall|q: int| 0 <= q < self@.selected_edges.len() ==> {
                let e = self@.map.edges[#[trigger] self@.selected_edges[q].0];
                &&& old(pm)@.stations.contains_key(e.from.0)
                &&& old(pm)@.stations.contains_key(e.to.0)
                &&& forall|j: int| 0 <= j < e.lines.len() ==> old(pm)@.lines.contains_key(#[trigger] e.lines[j].0)
            },
            old(ids).edge_counter() + self@.selected_edges.len() < u64::MAX,
        ensures
            final(pm)@.wf(),
            final(pm)@.edges_attached(),
            final(pm)@.lines_valid(),
            ends_list_edges(final(pm)@),
            one_edge_per_pair(final(pm)@),
            lines_visit_ends(final(pm)@),
            edges_list_lines(final(pm)@),
            carries_selected_lines(self@, final(pm)@, self@.selected_edges.len() as int),
            final(pm)@.stations.dom() == old(pm)@.stations.dom(),
            forall|k: u64| #[trigger] old(pm)@.stations.contains_key(k) ==> same_but_edges(old(pm)@.stations[k], final(pm)@.stations[k]),
            final(pm)@.lines.dom() == old(pm)@.lines.dom(),
            forall|l: u64| #[trigger] old(pm)@.lines.contains_key(l) ==> final(pm)@.lines[l].id == old(pm)@.lines[l].id
                && final(pm)@.lines[l].name == old(pm)@.lines[l].name && final(pm)@.lines[l].color == old(pm)@.lines[l].color,
            forall|q: int| 0 <= q < self@.selected_edges.len() ==> #[trigger] represented(self@, final(pm)@, q),
            forall|k: u64| #[trigger] final(pm)@.edges.contains_key(k) ==> exists|q: int|
                0 <= q < self@.selected_edges.len() && #[trigger] connects(
                    final(pm)@.edges[k],
                    self@.map.edges[self@.selected_edges[q].0].from,
                    self@.map.edges[self@.selected_edges[q].0].to,
                ),
    {
        let ghost v = self@;
        let ghost pm0 = pm@;
        let ghost c0 = ids.edge_counter();
        let mut i: usize = 0;
        while i < self.selected_edges.len()
            invariant
                i <= v.selected_edges.len(),
                v == self@,
                v.edges_valid(),
                v.map.wf(),
                pm@.wf(),
                pm@.edges_attached(),
                pm@.lines_valid(),
                pm@.stations.dom() == pm0.stations.dom(),
                forall|k: u64| #[trigger] pm0.stations.contains_key(k) ==> same_but_edges(pm0.stations[k], pm@.stations[k]),
                pm@.lines.dom() == pm0.lines.dom(),
                forall|l: u64| #[trigger] pm0.lines.contains_key(l) ==> pm@.lines[l].id == pm0.lines[l].id
                    && pm@.lines[l].name == pm0.lines[l].name && pm@.lines[l].color == pm0.lines[l].color,
                forall|q: int| 0 <= q < v.selected_edges.len() ==> {
                    let e = v.map.edges[#[trigger] v.selected_edges[q].0];
                    &&& pm0.stations.contains_key(e.from.0)
                    &&& pm0.stations.contains_key(e.to.0)
                    &&& forall|j: int| 0 <= j < e.lines.len() ==> pm0.lines.contains_key(#[trigger] e.lines[j].0)
                },
                forall|q: int| 0 <= q < i ==> #[trigger] represented(v, pm@, q),
                forall|k: u64| #[trigger] pm@.edges.contains_key(k) ==> exists|q: int|
                    0 <= q < i && #[trigger] connects(
                        pm@.edges[k],
                        v.map.edges[v.selected_edges[q].0].from,
                        v.map.edges[v.selected_edges[q].0].to,
                    ),
                fresh_edge_ids(pm@, *ids),
                ends_list_edges(pm@),
                one_edge_per_pair(pm@),
                lines_visit_ends(pm@),
                edges_list_lines(pm@),
                carries_selected_lines(v, pm@, i as int),
                ids.edge_counter() <= c0 + i,
                c0 + v.selected_edges.len() < u64::MAX,
            decreases v.selected_edges.len() - i,
        {
            let ghost e = v.map.edges[v.selected_edges[i as int].0];
            assert(v.map.edges.contains_key(v.selected_edges[i as int].0));
            let edge = self.map.get_edge(self.selected_edges[i]).unwrap();
            let from = edge.get_from();
            let to = edge.get_to();
            let ls = edge.get_lines();
            let ghost p1 = pm@;
            let ghost ids_before = *ids;
            let new_id = pm.get_edge_id_between(from, to, ids);
            let ghost p2 = pm@;
            proof {
                assert(p2.lines == p1.lines);
                assert forall|j: int| 0 <= j < ls@.len() implies p2.lines.contains_key(#[trigger] ls@[j].0) by {
                    assert(pm0.lines.contains_key(e.lines[j].0));
                }
            }
            proof {
                assert(p1.stations.contains_key(e.from.0));
                if !p1.has_edge_between(from, to) {
                    assert(!p1.edges.contains_key(new_id.0)) by {
                        if p1.edges.contains_key(new_id.0) {
                            assert(new_id.0 < ids_before.edge_counter());
                        }
                    }
                }
                lemma_partial_edge_found(v, p1, p2, new_id, i as int);
            }
            attach_to_lines(pm, new_id, ls);
            proof {
                let f = pm@;
                lemma_partial_lines_attached(v, p2, f, new_id, ls@, i as int);
                assert forall|k: u64| #[trigger] pm0.stations.contains_key(k) implies same_but_edges(pm0.stations[k], f.stations[k]) by {
                    assert(same_but_edges(pm0.stations[k], p1.stations[k]));
                }
                assert(f.stations.dom() =~= pm0.stations.dom());
                assert forall|q: int| 0 <= q < i + 1 implies #[trigger] represented(v, f, q) by {
                    if q < i {
                        assert(represented(v, p1, q));
                        let k = choose|k: u64| #[trigger] stands_for(v, p1, q, k);
                        assert(p2.edges.contains_key(k) && p2.edges[k] == p1.edges[k]);
                        let eq = v.map.edges[v.selected_edges[q].0];
                        assert forall|j: int| 0 <= j < eq.lines.len() implies #[trigger] f.lines[eq.lines[j].0].edges.contains(EdgeID(k)) by {
                            assert(p1.lines[eq.lines[j].0].edges.contains(EdgeID(k)));
                            assert(p1.lines.contains_key(eq.lines[j].0));
                        }
                        assert(stands_for(v, f, q, k));
                    } else {
                        assert forall|j: int| 0 <= j < e.lines.len() implies #[trigger] f.lines[e.lines[j].0].edges.contains(EdgeID(new_id.0)) by {
                            assert(ls@[j] == e.lines[j]);
                        }
                        assert(stands_for(v, f, q, new_id.0));
                    }
                }
                assert forall|k: u64| #[trigger] f.edges.contains_key(k) implies exists|q: int|
                    0 <= q < i + 1 && #[trigger] connects(
                        f.edges[k],
                        v.map.edges[v.selected_edges[q].0].from,
                        v.map.edges[v.selected_edges[q].0].to,
                    ) by {
                    if k == new_id.0 {
                        assert(connects(f.edges[k], e.from, e.to));
                    } else {
                        if !p1.edges.contains_key(k) {
                            assert(p2 == with_edge(p1, new_edge_view(new_id, from, to)));
                        }
                        assert(p1.edges.contains_key(k));
                        let q = choose|q: int| 0 <= q < i && #[trigger] connects(
                            p1.edges[k],
                            v.map.edges[v.selected_edges[q].0].from,
                            v.map.edges[v.selected_edges[q].0].to,
                        );
                        assert(connects(f.edges[k], v.map.edges[v.selected_edges[q].0].from, v.map.edges[v.selected_edges[q].0].to));
                    }
                }
            }
            i = i + 1;
        }
    }
}

/// Both ends of every selected edge are stations of the map.
pub open spec fn selected_ends_attached(v: MapStateView) -> bool {
    forall|q: int|
        0 <= q < v.selected_edges.len() ==> v.map.stations.contains_key(
            #[trigger] v.map.edges[v.selected_edges[q].0].from.0,
        ) && v.map.stations.contains_key(v.map.edges[v.selected_edges[q].0].to.0)
}

/// The lines of each edge of the partial map are exactly those of the
/// first `n` selected edges that join its ends.
pub open spec fn carries_selected_lines(v: MapStateView, pm: MetroMapView, n: int) -> bool {
    forall|k: u64, x: LineID|
        #![trigger pm.edges[k].lines.contains(x)]
        pm.edges.contains_key(k) ==> (pm.edges[k].lines.contains(x) <==> exists|q: int|
            0 <= q < n && #[trigger] connects(
                pm.edges[k],
                v.map.edges[v.selected_edges[q].0].from,
                v.map.edges[v.selected_edges[q].0].to,
            ) && v.map.edges[v.selected_edges[q].0].lines.contains(x))
}

/// Finding or making the edge between the ends `from` and `to` of the
/// selected edge at `i` keeps the partial map's lists in step.
proof fn lemma_partial_edge_found(v: MapStateView, p1: MetroMapView, p2: MetroMapView, id: EdgeID, i: int)
    requires
        0 <= i < v.selected_edges.len(),
        p1.lines_valid(),
        p1.stations.contains_key(v.map.edges[v.selected_edges[i].0].from.0),
        p1.stations.contains_key(v.map.edges[v.selected_edges[i].0].to.0),
        ends_list_edges(p1),
        one_edge_per_pair(p1),
        lines_visit_ends(p1),
        edges_list_lines(p1),
        carries_selected_lines(v, p1, i),
        forall|q: int| 0 <= q < i ==> #[trigger] represented(v, p1, q),
        ({
            let e = v.map.edges[v.selected_edges[i].0];
            &&& p1.has_edge_between(e.from, e.to) ==> p2 == p1
            &&& !p1.has_edge_between(e.from, e.to) ==> p2 == with_edge(p1, new_edge_view(id, e.from, e.to))
                && !p1.edges.contains_key(id.0)
        }),
        p2.edges.contains_key(id.0),
    ensures
        ends_list_edges(p2),
        one_edge_per_pair(p2),
        lines_visit_ends(p2),
        edges_list_lines(p2),
        carries_selected_lines(v, p2, i),
        forall|k: u64| #[trigger] p1.edges.contains_key(k) ==> p2.edges.contains_key(k) && p2.edges[k] == p1.edges[k],
{
    let e = v.map.edges[v.selected_edges[i].0];
    if !p1.has_edge_between(e.from, e.to) {
        let ne = new_edge_view(id, e.from, e.to);
        assert(p2.edges[id.0] == ne);
        assert forall|k: u64| #[trigger] p2.edges.contains_key(k) implies p2.stations[p2.edges[k].from.0].edges.contains(EdgeID(k))
            && p2.stations[p2.edges[k].to.0].edges.contains(EdgeID(k)) by {
            let s1 = p1.stations.insert(e.from.0, station_with_edge(p1.stations[e.from.0], id));
            let a = p2.edges[k].from.0;
            let b = p2.edges[k].to.0;
            lemma_push_once_contains(p1.stations[e.from.0].edges, id, EdgeID(k));
            lemma_push_once_contains(s1[e.to.0].edges, id, EdgeID(k));
            lemma_push_once_contains(p1.stations[a].edges, id, EdgeID(k));
            lemma_push_once_contains(p1.stations[b].edges, id, EdgeID(k));
            lemma_push_once_contains(s1[a].edges, id, EdgeID(k));
            lemma_push_once_contains(s1[b].edges, id, EdgeID(k));
        }
        assert forall|k1: u64, k2: u64|
            p2.edges.contains_key(k1) && p2.edges.contains_key(k2) && k1 != k2 implies !connects(
            #[trigger] p2.edges[k2], #[trigger] p2.edges[k1].from, p2.edges[k1].to) by {
            if k1 == id.0 {
                if connects(p2.edges[k2], e.from, e.to) {
                    assert(p1.edges.contains_key(k2));
                }
            } else if k2 == id.0 {
                if connects(p2.edges[k2], p2.edges[k1].from, p2.edges[k1].to) {
                    assert(connects(p1.edges[k1], e.from, e.to));
                    assert(p1.edges.contains_key(k1));
                }
            } else {
                assert(p1.edges[k2] == p2.edges[k2]);
            }
        }
        assert forall|l: u64, j: int| p2.lines.contains_key(l) && 0 <= j < p2.lines[l].edges.len() implies
            #[trigger] p2.edges[p2.lines[l].edges[j].0].lines.contains(LineID(l))
            && p2.lines[l].stations.contains(p2.edges[p2.lines[l].edges[j].0].from)
            && p2.lines[l].stations.contains(p2.edges[p2.lines[l].edges[j].0].to) by {
            assert(p1.lines[l].edges[j] == p2.lines[l].edges[j]);
            assert(p1.edges.contains_key(p1.lines[l].edges[j].0));
        }
        assert forall|k: u64, x: LineID| p2.edges.contains_key(k) implies (#[trigger] p2.edges[k].lines.contains(x) <==> exists|q: int|
            0 <= q < i && #[trigger] connects(
                p2.edges[k],
                v.map.edges[v.selected_edges[q].0].from,
                v.map.edges[v.selected_edges[q].0].to,
            ) && v.map.edges[v.selected_edges[q].0].lines.contains(x)) by {
            if k == id.0 {
                if exists|q: int|
                    0 <= q < i && #[trigger] connects(
                        p2.edges[k],
                        v.map.edges[v.selected_edges[q].0].from,
                        v.map.edges[v.selected_edges[q].0].to,
                    ) && v.map.edges[v.selected_edges[q].0].lines.contains(x) {
                    let q = choose|q: int|
                        0 <= q < i && #[trigger] connects(
                            p2.edges[k],
                            v.map.edges[v.selected_edges[q].0].from,
                            v.map.edges[v.selected_edges[q].0].to,
                        ) && v.map.edges[v.selected_edges[q].0].lines.contains(x);
                    assert(represented(v, p1, q));
                    let kq = choose|kq: u64| #[trigger] stands_for(v, p1, q, kq);
                    assert(connects(p1.edges[kq], e.from, e.to));
                }
            } else {
                assert(p1.edges.contains_key(k));
                assert(p1.edges[k] == p2.edges[k]);
            }
        }
    }
}

/// The lines of the selected edge at `i` taking the edge `id` that joins its
/// ends completes the partial map's bookkeeping for the first `i + 1`
/// selected edges.
proof fn lemma_partial_lines_attached(v: MapStateView, p2: MetroMapView, f: MetroMapView, id: EdgeID, ls: Seq<LineID>, i: int)
    requires
        0 <= i < v.selected_edges.len(),
        ls == v.map.edges[v.selected_edges[i].0].lines,
        p2.edges.contains_key(id.0),
        connects(p2.edges[id.0], v.map.edges[v.selected_edges[i].0].from, v.map.edges[v.selected_edges[i].0].to),
        ends_list_edges(p2),
        one_edge_per_pair(p2),
        carries_selected_lines(v, p2, i),
        grown(p2, f),
        forall|k: u64| k != id.0 && #[trigger] p2.edges.contains_key(k) ==> f.edges[k].lines == p2.edges[k].lines,
        forall|x: LineID| #[trigger] f.edges[id.0].lines.contains(x) <==> p2.edges[id.0].lines.contains(x) || ls.contains(x),
    ensures
        ends_list_edges(f),
        one_edge_per_pair(f),
        carries_selected_lines(v, f, i + 1),
{
    let e = v.map.edges[v.selected_edges[i].0];
    assert forall|k: u64| #[trigger] f.edges.contains_key(k) implies f.stations[f.edges[k].from.0].edges.contains(EdgeID(k))
        && f.stations[f.edges[k].to.0].edges.contains(EdgeID(k)) by {
        assert(p2.edges.contains_key(k));
    }
    assert forall|k1: u64, k2: u64|
        f.edges.contains_key(k1) && f.edges.contains_key(k2) && k1 != k2 implies !connects(
        #[trigger] f.edges[k2], #[trigger] f.edges[k1].from, f.edges[k1].to) by {
        assert(p2.edges.contains_key(k1));
        assert(p2.edges.contains_key(k2));
        assert(!connects(p2.edges[k2], p2.edges[k1].from, p2.edges[k1].to));
    }
    assert forall|k: u64, x: LineID| f.edges.contains_key(k) implies (#[trigger] f.edges[k].lines.contains(x) <==> exists|q: int|
        0 <= q < i + 1 && #[trigger] connects(
            f.edges[k],
            v.map.edges[v.selected_edges[q].0].from,
            v.map.edges[v.selected_edges[q].0].to,
        ) && v.map.edges[v.selected_edges[q].0].lines.contains(x)) by {
        assert(p2.edges.contains_key(k));
        if k == id.0 {
            if ls.contains(x) {
                assert(connects(f.edges[k], e.from, e.to));
            }
            if p2.edges[k].lines.contains(x) {
                let q = choose|q: int|
                    0 <= q < i && #[trigger] connects(
                        p2.edges[k],
                        v.map.edges[v.selected_edges[q].0].from,
                        v.map.edges[v.selected_edges[q].0].to,
                    ) && v.map.edges[v.selected_edges[q].0].lines.contains(x);
                assert(connects(f.edges[k], v.map.edges[v.selected_edges[q].0].from, v.map.edges[v.selected_edges[q].0].to));
            }
            if exists|q: int|
                0 <= q < i + 1 && #[trigger] connects(
                    f.edges[k],
                    v.map.edges[v.selected_edges[q].0].from,
                    v.map.edges[v.selected_edges[q].0].to,
                ) && v.map.edges[v.selected_edges[q].0].lines.contains(x) {
                let q = choose|q: int|
                    0 <= q < i + 1 && #[trigger] connects(
                        f.edges[k],
                        v.map.edges[v.selected_edges[q].0].from,
                        v.map.edges[v.selected_edges[q].0].to,
                    ) && v.map.edges[v.selected_edges[q].0].lines.contains(x);
                if q < i {
                    assert(connects(p2.edges[k], v.map.edges[v.selected_edges[q].0].from, v.map.edges[v.selected_edges[q].0].to));
                }
            }
        } else {
            assert(f.edges[k].lines == p2.edges[k].lines);
            assert(!connects(p2.edges[k], p2.edges[id.0].from, p2.edges[id.0].to));
            if exists|q: int|
                0 <= q < i + 1 && #[trigger] connects(
                    f.edges[k],
                    v.map.edges[v.selected_edges[q].0].from,
                    v.map.edges[v.selected_edges[q].0].to,
                ) && v.map.edges[v.selected_edges[q].0].lines.contains(x) {
                let q = choose|q: int|
                    0 <= q < i + 1 && #[trigger] connects(
                        f.edges[k],
                        v.map.edges[v.selected_edges[q].0].from,
                        v.map.edges[v.selected_edges[q].0].to,
                    ) && v.map.edges[v.selected_edges[q].0].lines.contains(x);
                assert(q != i);
                assert(connects(p2.edges[k], v.map.edges[v.selected_edges[q].0].from, v.map.edges[v.selected_edges[q].0].to));
            }
            if p2.edges[k].lines.contains(x) {
                let q = choose|q: int|
                    0 <= q < i && #[trigger] connects(
                        p2.edges[k],
                        v.map.edges[v.selected_edges[q].0].from,
                        v.map.edges[v.selected_edges[q].0].to,
                    ) && v.map.edges[v.selected_edges[q].0].lines.contains(x);
                assert(connects(f.edges[k], v.map.edges[v.selected_edges[q].0].from, v.map.edges[v.selected_edges[q].0].to));
            }
        }
    }
}

/// The entry says what occupies a node outside the partial map: a station
/// that is not an end of a selected edge stands on it, or an edge that is
/// not selected goes through it.
pub open spec fn occupant_fits(v: MapStateView, x: (GridNode, Occupant)) -> bool {
    match x.1 {
        Occupant::Station(s) => {
            &&& v.map.stations.contains_key(s.0)
            &&& !ends_of_selected(v.map, v.selected_edges).contains(s.0)
            &&& v.map.stations[s.0].pos == x.0
        },
        Occupant::Edge(e) => {
            &&& v.map.edges.contains_key(e.0)
            &&& !v.selected_edges.contains(e)
            &&& v.map.edges[e.0].nodes.contains(x.0)
        },
    }
}

/// The entries list exactly what occupies the nodes outside the partial
/// map: each fits, every station that is not an end of a selected edge and
/// every node of every edge that is not selected is listed, and the
/// stations are listed before the edges.
pub open spec fn occupancy(v: MapStateView, occ: Seq<(GridNode, Occupant)>) -> bool {
    &&& forall|i: int| 0 <= i < occ.len() ==> occupant_fits(v, #[trigger] occ[i])
    &&& forall|k: u64|
        #![trigger v.map.stations.contains_key(k)]
        v.map.stations.contains_key(k) && !ends_of_selected(v.map, v.selected_edges).contains(k)
            ==> occ.contains((v.map.stations[k].pos, Occupant::Station(StationID(k))))
    &&& forall|k: u64, n: GridNode|
        #![trigger v.map.edges[k].nodes.contains(n)]
        v.map.edges.contains_key(k) && !v.selected_edges.contains(EdgeID(k)) && v.map.edges[k].nodes.contains(n)
            ==> occ.contains((n, Occupant::Edge(EdgeID(k))))
    &&& forall|i: int, j: int| 0 <= i < j < occ.len() && (#[trigger] occ[i]).1 is Edge ==> (#[trigger] occ[j]).1 is Edge
}

/// If `x` is among the numbers `v`.
fn holds_key(v: &Vec<u64>, x: u64) -> (r: bool)
    ensures
        r == v@.contains(x),
{
    let mut i: usize = 0;
    while i < v.len()
        invariant
            i <= v@.len(),
            forall|j: int| 0 <= j < i ==> v@[j] != x,
        decreases v@.len() - i,
    {
        if v[i] == x {
            return true;
        }
        i = i + 1;
    }
    false
}

proof fn lemma_push_keeps<A>(s: Seq<A>, x: A, y: A)
    requires
        s.contains(y),
    ensures
        s.push(x).contains(y),
{
    lemma_push_contains(s, x, y);
}

impl MapState {
    /// What occupies the nodes outside the partial map (see [`occupancy`]).
    #[verifier::rlimit(30)]
    fn occupied_nodes(&self, ends: &Vec<u64>) -> (r: Vec<(GridNode, Occupant)>)
        requires
            self@.map.wf(),
            forall|k: u64| #[trigger] ends@.contains(k) <==> ends_of_selected(self@.map, self@.selected_edges).contains(k),
        ensures
            occupancy(self@, r@),
    {
        let ghost v = self@;
        let ghost es = ends_of_selected(v.map, v.selected_edges);
        let mut occ: Vec<(GridNode, Occupant)> = Vec::new();
        let keys = self.map.station_ids();
        let mut i: usize = 0;
        while i < keys.len()
            invariant
                i <= keys@.len(),
                v == self@,
                v.map.wf(),
                es == ends_of_selected(v.map, v.selected_edges),
                forall|k: u64| #[trigger] ends@.contains(k) <==> es.contains(k),
                forall|j: int| 0 <= j < keys@.len() ==> v.map.stations.contains_key(#[trigger] keys@[j].0),
                forall|q: int| 0 <= q < occ@.len() ==> occupant_fits(v, #[trigger] occ@[q]),
                forall|q: int| 0 <= q < occ@.len() ==> (#[trigger] occ@[q]).1 is Station,
                forall|j: int|
                    0 <= j < i && !es.contains(#[trigger] keys@[j].0) ==> occ@.contains(
                        (v.map.stations[keys@[j].0].pos, Occupant::Station(StationID(keys@[j].0))),
                    ),
            decreases keys@.len() - i,
        {
            let k = keys[i].0;
            assert(v.map.stations.contains_key(keys@[i as int].0));
            let ghost before = occ@;
            if !holds_key(ends, k) {
                let pos = self.map.get_station(StationID(k)).unwrap().get_pos();
                assert(v.map.stations[k].id.0 == k);
                occ.push((pos, Occupant::Station(StationID(k))));
                proof {
                    assert forall|j: int|
                        0 <= j < i + 1 && !es.contains(#[trigger] keys@[j].0) implies occ@.contains(
                            (v.map.stations[keys@[j].0].pos, Occupant::Station(StationID(keys@[j].0))),
                        ) by {
                        if j < i {
                            lemma_push_keeps(before, (pos, Occupant::Station(StationID(k))), (v.map.stations[keys@[j].0].pos, Occupant::Station(StationID(keys@[j].0))));
                        } else {
                            assert(occ@[occ@.len() - 1] == (pos, Occupant::Station(StationID(k))));
                        }
                    }
                }
            }
            i = i + 1;
        }
        let ghost after_stations = occ@;
        let edge_ids = self.map.edge_ids();
        let mut i: usize = 0;
        while i < edge_ids.len()
            invariant
                i <= edge_ids@.len(),
                v == self@,
                v.map.wf(),
                es == ends_of_selected(v.map, v.selected_edges),
                forall|j: int| 0 <= j < edge_ids@.len() ==> v.map.edges.contains_key(#[trigger] edge_ids@[j].0),
                forall|q: int| 0 <= q < occ@.len() ==> occupant_fits(v, #[trigger] occ@[q]),
                after_stations.len() <= occ@.len(),
                forall|q: int| 0 <= q < after_stations.len() ==> occ@[q] == after_stations[q],
                forall|q: int| 0 <= q < after_stations.len() ==> (#[trigger] after_stations[q]).1 is Station,
                forall|q: int| after_stations.len() <= q < occ@.len() ==> (#[trigger] occ@[q]).1 is Edge,
                forall|y: (GridNode, Occupant)| after_stations.contains(y) ==> #[trigger] occ@.contains(y),
                forall|j: int, n: GridNode|
                    0 <= j < i && !v.selected_edges.contains(edge_ids@[j]) && #[trigger] v.map.edges[edge_ids@[j].0].nodes.contains(n)
                        ==> occ@.contains((n, Occupant::Edge(edge_ids@[j]))),
            decreases edge_ids@.len() - i,
        {
            let id = edge_ids[i];
            assert(v.map.edges.contains_key(edge_ids@[i as int].0));
            if !crate::models::contains_edge_id(self.selected_edges.as_slice(), id) {
                let edge = self.map.get_edge(id).unwrap();
                let nodes = edge.get_nodes();
                let ghost at_start = occ@;
                let mut t: usize = 0;
                while t < nodes.len()
                    invariant
                        t <= nodes@.len(),
                        nodes@ == v.map.edges[id.0].nodes,
                        v.map.edges.contains_key(id.0),
                        !v.selected_edges.contains(id),
                        forall|q: int| 0 <= q < occ@.len() ==> occupant_fits(v, #[trigger] occ@[q]),
                        at_start.len() <= occ@.len(),
                        forall|q: int| 0 <= q < at_start.len() ==> occ@[q] == at_start[q],
                        forall|q: int| at_start.len() <= q < occ@.len() ==> (#[trigger] occ@[q]).1 is Edge,
                        forall|q: int| 0 <= q < t ==> occ@.contains((#[trigger] nodes@[q], Occupant::Edge(id))),
                    decreases nodes@.len() - t,
                {
                    let ghost b = occ@;
                    occ.push((nodes[t], Occupant::Edge(id)));
                    proof {
                        assert(nodes@.contains(nodes@[t as int]));
                        assert forall|q: int| 0 <= q < t + 1 implies occ@.contains((#[trigger] nodes@[q], Occupant::Edge(id))) by {
                            if q < t {
                                lemma_push_keeps(b, (nodes@[t as int], Occupant::Edge(id)), (nodes@[q], Occupant::Edge(id)));
                            } else {
                                assert(occ@[occ@.len() - 1] == (nodes@[q], Occupant::Edge(id)));
                            }
                        }
                    }
                    t = t + 1;
                }
                proof {
                    assert forall|q: int| after_stations.len() <= q < occ@.len() implies (#[trigger] occ@[q]).1 is Edge by {
                        if q < at_start.len() {
                            assert(occ@[q] == at_start[q]);
                        }
                    }
                    assert forall|y: (GridNode, Occupant)| at_start.contains(y) implies #[trigger] occ@.contains(y) by {
                        let q = choose|q: int| 0 <= q < at_start.len() && at_start[q] == y;
                        assert(occ@[q] == y);
                    }
                    assert forall|j: int, n: GridNode|
                        0 <= j < i + 1 && !v.selected_edges.contains(edge_ids@[j]) && #[trigger] v.map.edges[edge_ids@[j].0].nodes.contains(n)
                            implies occ@.contains((n, Occupant::Edge(edge_ids@[j]))) by {
                        if j == i {
                            let q = choose|q: int| 0 <= q < nodes@.len() && nodes@[q] == n;
                            assert(occ@.contains((nodes@[q], Occupant::Edge(id))));
                        } else {
                            assert(at_start.contains((n, Occupant::Edge(edge_ids@[j]))));
                        }
                    }
                    assert forall|y: (GridNode, Occupant)| after_stations.contains(y) implies #[trigger] occ@.contains(y) by {
                        assert(at_start.contains(y));
                    }
                }
            }
            i = i + 1;
        }
        proof {
            assert forall|k: u64| #![trigger v.map.stations.contains_key(k)]
                v.map.stations.contains_key(k) && !es.contains(k)
                implies occ@.contains((v.map.stations[k].pos, Occupant::Station(StationID(k)))) by {
                assert(keys@.contains(StationID(k)));
                let j = choose|j: int| 0 <= j < keys@.len() && keys@[j] == StationID(k);
                assert(after_stations.contains((v.map.stations[keys@[j].0].pos, Occupant::Station(StationID(keys@[j].0)))));
            }
            assert forall|k: u64, n: GridNode| #![trigger v.map.edges[k].nodes.contains(n)]
                v.map.edges.contains_key(k) && !v.selected_edges.contains(EdgeID(k)) && v.map.edges[k].nodes.contains(n)
                implies occ@.contains((n, Occupant::Edge(EdgeID(k)))) by {
                assert(edge_ids@.contains(EdgeID(k)));
                let j = choose|j: int| 0 <= j < edge_ids@.len() && edge_ids@[j] == EdgeID(k);
                assert(v.map.edges[edge_ids@[j].0].nodes.contains(n));
            }
            assert forall|a: int, b: int| 0 <= a < b < occ@.len() && (#[trigger] occ@[a]).1 is Edge implies (#[trigger] occ@[b]).1 is Edge by {
                if a < after_stations.len() {
                    assert(after_stations[a].1 is Station);
                }
            }
        }
        occ
    }

    /// Make a map of the selected edges, for the layout algorithm to work on,
    /// and list what occupies the nodes outside it. The map has the stations
    /// at the ends of the selected edges, without their edges and locked
    /// where they are not selected or have an edge that is not selected; the
    /// lines that use a selected edge, empty at first; and for each selected
    /// edge, the edge between its ends (with a new id from `ids` where it is
    /// not there yet), which each line of the selected edge then uses.
    pub fn get_selected_partial_map(&self, ids: &mut IDManager) -> (r: (MetroMap, Vec<(GridNode, Occupant)>))
        requires
            self@.edges_valid(),
            self@.map.wf(),
            selected_ends_attached(self@),
            old(ids).edge_counter() + self@.selected_edges.len() < u64::MAX,
        ensures
            ({
                let pm = r.0@;
                let ends = ends_of_selected(self@.map, self@.selected_edges);
                let lines = lines_of_selected(self@.map, self@.selected_edges);
                &&& pm.stations.dom() == ends
                &&& forall|k: u64| #[trigger] ends.contains(k) ==> same_but_edges(partial_station(self@, k), pm.stations[k])
                &&& pm.lines.dom() == lines
                &&& forall|l: u64| #[trigger] lines.contains(l) ==> pm.lines[l].id == LineID(l) && pm.lines[l].name
                    == Seq::<char>::empty() && pm.lines[l].color == (0u8, 0u8, 0u8)
                &&& forall|q: int| 0 <= q < self@.selected_edges.len() ==> #[trigger] represented(self@, pm, q)
                &&& forall|k: u64| #[trigger] pm.edges.contains_key(k) ==> exists|q: int|
                    0 <= q < self@.selected_edges.len() && #[trigger] connects(
                        pm.edges[k],
                        self@.map.edges[self@.selected_edges[q].0].from,
                        self@.map.edges[self@.selected_edges[q].0].to,
                    )
                &&& pm.wf()
                &&& pm.edges_attached()
                &&& pm.lines_valid()
                &&& ends_list_edges(pm)
                &&& one_edge_per_pair(pm)
                &&& lines_visit_ends(pm)
                &&& edges_list_lines(pm)
                &&& carries_selected_lines(self@, pm, self@.selected_edges.len() as int)
            }),
            occupancy(self@, r.1@),
    {
        let ghost v = self@;
        let ghost ends = ends_of_selected(v.map, v.selected_edges);
        let ghost lset = lines_of_selected(v.map, v.selected_edges);
        let (stations, lines) = self.selected_parts();
        proof {
            assert forall|i: int| 0 <= i < stations@.len() implies v.map.stations.contains_key(#[trigger] stations@[i]) by {
                assert(stations@.contains(stations@[i]));
                let q = choose|q: int|
                    0 <= q < v.selected_edges.len() && (#[trigger] v.map.edges[v.selected_edges[q].0].from.0 == stations@[i]
                        || v.map.edges[v.selected_edges[q].0].to.0 == stations@[i]);
                assert(v.map.edges.contains_key(v.selected_edges[q].0));
            }
        }
        let mut pm = MetroMap::new();
        self.add_partial_stations(&stations, &mut pm);
        let ghost p1 = pm@;
        add_partial_lines(&lines, &mut pm, ids);
        let ghost p2 = pm@;
        proof {
            assert forall|q: int| 0 <= q < v.selected_edges.len() implies {
                let e = v.map.edges[#[trigger] v.selected_edges[q].0];
                &&& p2.stations.contains_key(e.from.0)
                &&& p2.stations.contains_key(e.to.0)
                &&& forall|j: int| 0 <= j < e.lines.len() ==> p2.lines.contains_key(#[trigger] e.lines[j].0)
            } by {
                let e = v.map.edges[v.selected_edges[q].0];
                assert(ends.contains(e.from.0));
                assert(ends.contains(e.to.0));
                assert(stations@.contains(e.from.0));
                assert(stations@.contains(e.to.0));
                assert forall|j: int| 0 <= j < e.lines.len() implies p2.lines.contains_key(#[trigger] e.lines[j].0) by {
                    assert(lset.contains(e.lines[j].0));
                    assert(lines@.contains(e.lines[j].0));
                }
            }
        }
        self.add_partial_edges(&mut pm, ids);
        proof {
            let f = pm@;
            assert(f.stations.dom() =~= ends);
            assert(f.lines.dom() =~= lset);
            assert forall|k: u64| #[trigger] ends.contains(k) implies same_but_edges(partial_station(v, k), f.stations[k]) by {
                assert(stations@.contains(k));
                assert(p2.stations.contains_key(k));
            }
            assert forall|l: u64| #[trigger] lset.contains(l) implies f.lines[l].id == LineID(l) && f.lines[l].name
                == Seq::<char>::empty() && f.lines[l].color == (0u8, 0u8, 0u8) by {
                assert(lines@.contains(l));
                assert(p2.lines.contains_key(l));
            }
        }
        let occ = self.occupied_nodes(&stations);
        (pm, occ)
    }
}

/// Once all selections are cleared, no node is on a selected object.
pub proof fn lemma_nothing_selected_after_clear(v: MapStateView, node: GridNode)
    ensures
        !on_selected_object(
            MapStateView {
                map: with_edges_selected(v.map, v.selected_edges, false),
                selected_stations: Seq::empty(),
                selected_line: None,
                selected_action: None,
                selected_edges: Seq::empty(),
                ..v
            },
            node,
        ),
{
}

/// Locking the selection locks each selected edge, and each selected
/// station of the map, and changes nothing else on the map but those flags;
/// unlocking it afterwards leaves all of them unlocked.
pub proof fn lemma_lock_then_unlock(v: MapStateView)
    requires
        v.edges_valid(),
    ensures
        ({
            let locked = with_stations_locked(with_edges_locked(v.map, v.selected_edges, true), selected_ids(v.selected_stations), true);
            let unlocked = with_stations_locked(with_edges_locked(locked, v.selected_edges, false), selected_ids(v.selected_stations), false);
            &&& forall|i: int| 0 <= i < v.selected_edges.len() ==> locked.edges[#[trigger] v.selected_edges[i].0].is_locked
            &&& forall|i: int| 0 <= i < v.selected_edges.len() ==> !unlocked.edges[#[trigger] v.selected_edges[i].0].is_locked
            &&& forall|k: u64| #[trigger] v.map.stations.contains_key(k) && selected_ids(v.selected_stations).contains(StationID(k))
                ==> locked.stations[k].is_locked && !unlocked.stations[k].is_locked
            &&& locked.edges.dom() == v.map.edges.dom() && unlocked.edges.dom() == v.map.edges.dom()
            &&& locked.lines == v.map.lines && unlocked.lines == v.map.lines
        }),
{
    let locked = with_stations_locked(with_edges_locked(v.map, v.selected_edges, true), selected_ids(v.selected_stations), true);
    let unlocked = with_stations_locked(with_edges_locked(locked, v.selected_edges, false), selected_ids(v.selected_stations), false);
    assert forall|i: int| 0 <= i < v.selected_edges.len() implies locked.edges[#[trigger] v.selected_edges[i].0].is_locked by {
        assert(v.selected_edges.contains(EdgeID(v.selected_edges[i].0)));
    }
    assert forall|i: int| 0 <= i < v.selected_edges.len() implies !unlocked.edges[#[trigger] v.selected_edges[i].0].is_locked by {
        assert(v.selected_edges.contains(EdgeID(v.selected_edges[i].0)));
    }
    assert(locked.edges.dom() =~= v.map.edges.dom());
    assert(unlocked.edges.dom() =~= v.map.edges.dom());
}

/// The selected line can be put through a station: the stations it was
/// grabbed between are stations of the map, and where it was grabbed
/// between two, the map has the line and the line has an edge from the
/// one to the other.
pub open spec fn grab_fits(m: MetroMapView, sl: SelectedLineView) -> bool {
    let (b, a) = sl.before_after;
    &&& b is Some ==> m.stations.contains_key(b.unwrap().0)
    &&& a is Some ==> m.stations.contains_key(a.unwrap().0)
    &&& b is Some && a is Some ==> {
        &&& m.lines.contains_key(sl.line.0)
        &&& line_edges_in(m, m.lines[sl.line.0])
        &&& m.lines[sl.line.0].edges.no_duplicates()
        &&& exists|i: int| edge_runs(m, m.lines[sl.line.0].edges, i, b->0, a->0)
    }
}

/// The map's line with the given id, or an empty one where it has none.
pub open spec fn line_or_empty(m: MetroMapView, id: LineID) -> LineView {
    if m.lines.contains_key(id.0) {
        m.lines[id.0]
    } else {
        empty_line_view(id)
    }
}

/// The map with a line of the given id: an empty one is added where it has
/// none.
pub open spec fn with_line_present(m: MetroMapView, id: LineID) -> MetroMapView {
    if m.lines.contains_key(id.0) {
        m
    } else {
        MetroMapView { lines: m.lines.insert(id.0, empty_line_view(id)), ..m }
    }
}

/// The state once the first selected station, a new one, has been put on
/// the map at `node` (its position and original position both `node`) and
/// the selected stations cleared.
pub open spec fn station_placed(v: MapStateView, node: GridNode) -> MapStateView {
    MapStateView {
        map: with_station(
            v.map,
            StationView { pos: node, original_pos: node, ..v.selected_stations[0].station },
        ),
        selected_stations: Seq::empty(),
        ..v
    }
}

/// `f` is `v` once some edge of the map through `node` has been picked: if
/// it is selected, nothing changes; else with `shift_key` it is added to the
/// selected edges, and without it replaces them.
pub open spec fn edge_picked(v: MapStateView, f: MapStateView, node: GridNode, shift_key: bool) -> bool {
    exists|k: u64|
        #[trigger] v.map.edges.contains_key(k) && edge_visits(v.map, v.map.edges[k], node) && if v.selected_edges.contains(
            EdgeID(k),
        ) {
            f == v
        } else if shift_key {
            f == (MapStateView {
                map: with_edges_selected(v.map, seq![EdgeID(k)], true),
                selected_edges: v.selected_edges.push(EdgeID(k)),
                ..v
            })
        } else {
            f == (MapStateView {
                map: with_edges_selected(with_edges_selected(v.map, v.selected_edges, false), seq![EdgeID(k)], true),
                selected_edges: seq![EdgeID(k)],
                ..v
            })
        }
}

/// `f` is the map of `v` once a station of it on `node` has been put on the
/// selected line (see [`Line::add_station`]), where a line with the selected
/// line's id is made first if the map has none; `c` is the next edge id.
pub open spec fn put_on_line(v: MapStateView, node: GridNode, c: u64, f: MetroMapView) -> bool {
    let sl = v.selected_line->0;
    exists|k: u64, l: LineView, m: MetroMapView|
        #![trigger station_added(line_or_empty(v.map, sl.line), with_line_present(v.map, sl.line), l, m, StationID(k), sl.before_after.0, sl.before_after.1, c)]
        {
            &&& v.map.stations.contains_key(k)
            &&& v.map.stations[k].pos == node
            &&& station_added(
                line_or_empty(v.map, sl.line),
                with_line_present(v.map, sl.line),
                l,
                m,
                StationID(k),
                sl.before_after.0,
                sl.before_after.1,
                c,
            )
            &&& f == with_line(m, l)
        }
}

/// The map after each of the selected stations `sel`, in order, has been
/// dropped where it was dragged to: a station of the map with its id that
/// stands elsewhere is moved there (its original position too) and locked.
pub open spec fn stations_dropped(m: MetroMapView, sel: Seq<SelectedStationView>) -> MetroMapView
    decreases sel.len(),
{
    if sel.len() == 0 {
        m
    } else {
        let before = stations_dropped(m, sel.drop_last());
        let s = sel.last().station;
        if before.stations.contains_key(s.id.0) && before.stations[s.id.0].pos != s.pos {
            MetroMapView {
                stations: before.stations.insert(
                    s.id.0,
                    StationView { pos: s.pos, original_pos: s.pos, is_locked: true, ..before.stations[s.id.0] },
                ),
                ..before
            }
        } else {
            before
        }
    }
}

/// Dropping stations leaves the edges and the lines as they are.
pub proof fn lemma_dropped_keeps_edges(m: MetroMapView, sel: Seq<SelectedStationView>)
    ensures
        stations_dropped(m, sel).edges == m.edges,
        stations_dropped(m, sel).lines == m.lines,
    decreases sel.len(),
{
    if sel.len() > 0 {
        lemma_dropped_keeps_edges(m, sel.drop_last());
    }
}

/// Dropping stations whose ids differ: each station of the map that one of
/// them stands for and that stands elsewhere moves to where it was dragged
/// (its original position too) and is locked, keeping all else; every other
/// station, and the edges and lines, stay as they were.
pub proof fn lemma_stations_dropped_each(m: MetroMapView, sel: Seq<SelectedStationView>)
    requires
        forall|i: int, j: int| 0 <= i < j < sel.len() ==> sel[i].station.id != sel[j].station.id,
    ensures
        stations_dropped(m, sel).stations.dom() == m.stations.dom(),
        stations_dropped(m, sel).edges == m.edges,
        stations_dropped(m, sel).lines == m.lines,
        forall|k: u64|
            m.stations.contains_key(k) && (forall|i: int| 0 <= i < sel.len() ==> (#[trigger] sel[i]).station.id.0 != k)
                ==> #[trigger] stations_dropped(m, sel).stations[k] == m.stations[k],
        forall|i: int|
            0 <= i < sel.len() && m.stations.contains_key((#[trigger] sel[i]).station.id.0) ==> {
                let k = sel[i].station.id.0;
                let p = sel[i].station.pos;
                if m.stations[k].pos != p {
                    stations_dropped(m, sel).stations[k] == (StationView {
                        pos: p,
                        original_pos: p,
                        is_locked: true,
                        ..m.stations[k]
                    })
                } else {
                    stations_dropped(m, sel).stations[k] == m.stations[k]
                }
            },
    decreases sel.len(),
{
    if sel.len() > 0 {
        let d = sel.drop_last();
        let n = sel.len() - 1;
        assert forall|i: int, j: int| 0 <= i < j < d.len() implies d[i].station.id != d[j].station.id by {
            assert(d[i] == sel[i] && d[j] == sel[j]);
        }
        lemma_stations_dropped_each(m, d);
        let before = stations_dropped(m, d);
        let x = sel.last();
        assert(x == sel[n]);
        assert(before.stations.contains_key(x.station.id.0) == m.stations.contains_key(x.station.id.0));
        if m.stations.contains_key(x.station.id.0) {
            assert forall|i: int| 0 <= i < d.len() implies (#[trigger] d[i]).station.id.0 != x.station.id.0 by {
                assert(d[i] == sel[i]);
                assert(sel[i].station.id != sel[n].station.id);
            }
            assert(before.stations[x.station.id.0] == m.stations[x.station.id.0]);
        }
        let f = stations_dropped(m, sel);
        assert(f.stations.dom() =~= m.stations.dom());
        assert forall|k: u64|
            m.stations.contains_key(k) && (forall|i: int| 0 <= i < sel.len() ==> (#[trigger] sel[i]).station.id.0 != k)
                implies #[trigger] f.stations[k] == m.stations[k] by {
            assert(sel[n].station.id.0 != k);
            assert forall|i: int| 0 <= i < d.len() implies (#[trigger] d[i]).station.id.0 != k by {
                assert(d[i] == sel[i]);
            }
        }
        assert forall|i: int| 0 <= i < sel.len() && m.stations.contains_key((#[trigger] sel[i]).station.id.0) implies {
            let k = sel[i].station.id.0;
            let p = sel[i].station.pos;
            if m.stations[k].pos != p {
                f.stations[k] == (StationView { pos: p, original_pos: p, is_locked: true, ..m.stations[k] })
            } else {
                f.stations[k] == m.stations[k]
            }
        } by {
            if i < n {
                assert(d[i] == sel[i]);
                assert(sel[i].station.id != sel[n].station.id);
                assert(sel[i].station.id.0 != x.station.id.0);
            }
        }
    }
}

impl MapState {
    /// When the first selected station is a new one, put it on the map at
    /// `node`, which becomes its position and its original position, and
    /// clear the selected stations. Tells whether it did.
    pub fn place_new_station(&mut self, node: GridNode) -> (r: bool)
        ensures
            r == (old(self)@.selected_stations.len() > 0 && old(self)@.selected_stations[0].moved_from is None),
            !r ==> final(self)@ == old(self)@,
            r ==> final(self)@ == station_placed(old(self)@, node),
    {
        if self.selected_stations.len() == 0 || !self.selected_stations[0].is_new() {
            return false;
        }
        let mut station = self.selected_stations[0].get_station().clone();
        station.set_pos(node);
        station.set_original_pos(node);
        self.map.add_station(station);
        self.clear_selected_stations();
        true
    }

    /// Select the edge at `node`, if there is one and it is not selected
    /// yet: with `shift_key` it is added to the selected edges, else it
    /// replaces them. Tells whether an edge is at the node.
    pub fn select_edge_at(&mut self, node: GridNode, shift_key: bool) -> (r: bool)
        requires
            old(self)@.map.wf(),
            old(self)@.edges_valid(),
        ensures
            r == exists|k: u64| #[trigger]
                old(self)@.map.edges.contains_key(k) && edge_visits(old(self)@.map, old(self)@.map.edges[k], node),
            !r ==> final(self)@ == old(self)@,
            r ==> edge_picked(old(self)@, final(self)@, node, shift_key),
    {
        let edge_id = match self.map.edge_at_node(node) {
            Some(e) => e,
            None => {
                return false;
            },
        };
        if contains_edge_id(self.selected_edges.as_slice(), edge_id) {
            return true;
        }
        if shift_key {
            self.select_edge(edge_id);
        } else {
            let one = vec![edge_id];
            assert(one@ =~= seq![edge_id]);
            self.set_selected_edges(one);
        }
        true
    }

    /// With a line selected and a station at `node`, put the station on that
    /// line between the stations the line was grabbed between (see
    /// [`Line::add_station`]; a line with the selected line's id is made
    /// first where the map has none) and clear the selected line. With a
    /// line selected but no station at the node, only the selected line is
    /// cleared. Tells whether a station was added. The routes of the edges
    /// are left as they are.
    pub fn add_station_to_selected_line(&mut self, node: GridNode, ids: &mut IDManager) -> (r: bool)
        requires
            old(self)@.map.wf(),
            fresh_edge_ids(old(self)@.map, *old(ids)),
            old(ids).edge_counter() < u64::MAX - 1,
            old(self)@.selected_line is Some ==> grab_fits(old(self)@.map, old(self)@.selected_line->0),
        ensures
            r ==> old(self)@.selected_line is Some,
            old(self)@.selected_line is None ==> final(self)@ == old(self)@ && *final(ids) == *old(ids),
            old(self)@.selected_line is Some ==> (r <==> exists|k: u64| #[trigger]
                old(self)@.map.stations.contains_key(k) && old(self)@.map.stations[k].pos == node),
            old(self)@.selected_line is Some && !r ==> final(self)@ == (MapStateView {
                selected_line: None,
                ..old(self)@
            }) && *final(ids) == *old(ids),
            r ==> put_on_line(old(self)@, node, old(ids).edge_counter(), final(self)@.map) && final(self)@ == (
            MapStateView { map: final(self)@.map, selected_line: None, ..old(self)@ }),
    {
        let sl = match self.selected_line {
            Some(sl) => sl,
            None => {
                return false;
            },
        };
        let station = match self.map.station_at_node(node) {
            Some(s) => s,
            None => {
                self.selected_line = None;
                return false;
            },
        };
        proof {
            assert(self@.map.stations[station.0].id == station);
        }
        let (before, after) = sl.get_before_after();
        let ghost m0 = self@.map;
        let mut line = self.map.get_or_add_line(sl.get_line()).clone();
        let ghost m1 = self@.map;
        let ghost l1 = line@;
        proof {
            assert(m1 == with_line_present(m0, sl@.line));
            assert(l1 == line_or_empty(m0, sl@.line));
            assert(fresh_edge_ids(m1, *ids));
            if before is Some && after is Some {
                assert(m1 == m0);
            }
        }
        line.add_station(&mut self.map, station, before, after, ids);
        let ghost m2 = self@.map;
        let ghost l2 = line@;
        self.map.add_line(line);
        self.selected_line = None;
        proof {
            assert(station_added(l1, m1, l2, m2, station, before, after, old(ids).edge_counter()));
            assert(self@ == (MapStateView { map: with_line(m2, l2), selected_line: None, ..old(self)@ }));
        }
        true
    }

    /// Drop the selected stations where they were dragged to: each station
    /// of the map that a selected station stands for and that stands
    /// elsewhere is moved there, takes that place as its original position
    /// and is locked; then the selected stations are cleared. The routes of
    /// the edges at the moved stations are left as they are. Tells whether
    /// any station was selected.
    pub fn drop_moved_stations(&mut self) -> (r: bool)
        ensures
            r == (old(self)@.selected_stations.len() > 0),
            !r ==> final(self)@ == old(self)@,
            r ==> final(self)@ == (MapStateView {
                map: stations_dropped(old(self)@.map, old(self)@.selected_stations),
                selected_stations: Seq::empty(),
                ..old(self)@
            }),
    {
        if self.selected_stations.len() == 0 {
            return false;
        }
        let ghost v0 = self@;
        let mut i: usize = 0;
        while i < self.selected_stations.len()
            invariant
                i <= v0.selected_stations.len(),
                self@ == (MapStateView { map: stations_dropped(v0.map, v0.selected_stations.take(i as int)), ..v0 }),
            decreases v0.selected_stations.len() - i,
        {
            let s = self.selected_stations[i].get_station();
            let id = s.get_id();
            let pos = s.get_pos();
            let ghost before = self@.map;
            proof {
                assert(v0.selected_stations.take(i + 1).drop_last() =~= v0.selected_stations.take(i as int));
                assert(v0.selected_stations.take(i + 1).last() == v0.selected_stations[i as int]);
            }
            match self.map.get_mut_station(id) {
                Some(station) => {
                    if station.get_pos() != pos {
                        station.set_pos(pos);
                        station.set_original_pos(pos);
                        station.lock();
                    }
                },
                None => {},
            }
            proof {
                assert(self@.map =~= stations_dropped(v0.map, v0.selected_stations.take(i + 1)));
            }
            i = i + 1;
        }
        proof {
            assert(v0.selected_stations.take(v0.selected_stations.len() as int) =~= v0.selected_stations);
        }
        self.clear_selected_stations();
        true
    }
}

/// What the selected action does to the map when the user clicks on the
/// node; `stays` tells whether it changed nothing.
pub open spec fn action_done(
    action: ActionType,
    m: MetroMapView,
    f: MetroMapView,
    node: GridNode,
) -> bool {
    match action {
        ActionType::RemoveStation => if exists|k: u64| #[trigger] m.stations.contains_key(k) && m.stations[k].pos == node {
            exists|k: u64|
                #[trigger] m.stations.contains_key(k) && m.stations[k].pos == node && f.stations.dom()
                    == m.stations.dom().remove(k) && f.lines.dom() == m.lines.dom() && (forall|l: u64|
                    #[trigger] m.lines.contains_key(l) ==> line_rejoined(m, f, l, StationID(k))) && (forall|j: u64|
                    #[trigger] f.stations.contains_key(j) ==> f.stations[j] == (StationView {
                        edges: f.stations[j].edges,
                        ..m.stations[j]
                    })) && (forall|j: u64| #[trigger]
                    m.edges.contains_key(j) && !touches(m, EdgeID(j), StationID(k)) ==> f.edges.contains_key(j)
                        && same_but_lines(m.edges[j], f.edges[j]))
        } else {
            f == m
        },
        ActionType::RemoveLine => if exists|k: u64| #[trigger] m.lines.contains_key(k) && line_visits(m, m.lines[k], node) {
            exists|k: u64|
                #[trigger] m.lines.contains_key(k) && line_visits(m, m.lines[k], node) && f == without_line(m, k)
        } else {
            f == m
        },
        ActionType::Lock | ActionType::Unlock => {
            let on = action == ActionType::Lock;
            if exists|k: u64| #[trigger] m.stations.contains_key(k) && m.stations[k].pos == node {
                exists|k: u64|
                    #[trigger] m.stations.contains_key(k) && m.stations[k].pos == node && f == (MetroMapView {
                        stations: m.stations.insert(k, StationView { is_locked: on, ..m.stations[k] }),
                        ..m
                    })
            } else if exists|k: u64| #[trigger] m.edges.contains_key(k) && edge_visits(m, m.edges[k], node) {
                exists|k: u64|
                    #[trigger] m.edges.contains_key(k) && edge_visits(m, m.edges[k], node) && f == (MetroMapView {
                        edges: m.edges.insert(k, EdgeView { is_locked: on, ..m.edges[k] }),
                        ..m
                    })
            } else {
                f == m
            }
        },
    }
}

impl MapState {
    /// A click on the node while an action is selected: the action is done
    /// on what is at the node (see [`action_done`]), and unless shift is held
    /// the action is then no longer selected. Returns whether an action was
    /// selected; without one nothing changes.
    pub fn apply_selected_action(&mut self, node: GridNode, shift_key: bool, ids: &mut IDManager) -> (r: bool)
        requires
            old(self)@.map.wf(),
            old(self)@.selected_action == Some(ActionType::RemoveStation) || old(self)@.selected_action == Some(
                ActionType::RemoveLine,
            ) ==> editable(old(self)@.map, *old(ids)),
        ensures
            r == old(self)@.selected_action is Some,
            !r ==> final(self)@ == old(self)@ && *final(ids) == *old(ids),
            r ==> action_done(old(self)@.selected_action->0, old(self)@.map, final(self)@.map, node),
            r ==> final(self)@ == (MapStateView {
                map: final(self)@.map,
                selected_action: if shift_key {
                    old(self)@.selected_action
                } else {
                    None
                },
                ..old(self)@
            }),
    {
        let action = match self.selected_action {
            Some(a) => a,
            None => {
                return false;
            },
        };
        let ghost m = self@.map;
        let station_at_node = self.map.station_at_node(node);
        let edge_at_node = self.map.edge_at_node(node);
        match action {
            ActionType::RemoveStation => {
                match station_at_node {
                    Some(station_id) => {
                        self.map.remove_station(station_id, ids);
                        assert(m.stations[station_id.0].id == station_id);
                    },
                    None => {},
                }
            },
            ActionType::RemoveLine => {
                let found = match self.map.line_at_node(node) {
                    Some(line) => Some(line.get_id()),
                    None => None,
                };
                match found {
                    Some(line_id) => {
                        self.map.remove_line(line_id);
                    },
                    None => {},
                }
            },
            ActionType::Lock | ActionType::Unlock => {
                let on = match action {
                    ActionType::Lock => true,
                    _ => false,
                };
                match station_at_node {
                    Some(station_id) => {
                        match self.map.get_mut_station(station_id) {
                            Some(station) => {
                                if on {
                                    station.lock();
                                } else {
                                    station.unlock();
                                }
                            },
                            None => {},
                        }
                    },
                    None => {
                        match edge_at_node {
                            Some(edge_id) => {
                                match self.map.get_mut_edge(edge_id) {
                                    Some(edge) => {
                                        if on {
                                            edge.lock();
                                        } else {
                                            edge.unlock();
                                        }
                                    },
                                    None => {},
                                }
                            },
                            None => {},
                        }
                    },
                }
            },
        }
        if !shift_key {
            self.selected_action = None;
        }
        true
    }
}

/// The other end of each edge of `es` that does not start at `s`, in order.
pub open spec fn befores_of(m: MetroMapView, es: Seq<EdgeID>, s: StationID) -> Seq<StationID>
    decreases es.len(),
{
    if es.len() == 0 {
        Seq::empty()
    } else {
        let p = befores_of(m, es.drop_last(), s);
        let e = m.edges[es.last().0];
        if e.from == s {
            p
        } else {
            p.push(e.from)
        }
    }
}

/// The end of each edge of `es` that starts at `s`, in order.
pub open spec fn afters_of(m: MetroMapView, es: Seq<EdgeID>, s: StationID) -> Seq<StationID>
    decreases es.len(),
{
    if es.len() == 0 {
        Seq::empty()
    } else {
        let p = afters_of(m, es.drop_last(), s);
        let e = m.edges[es.last().0];
        if e.from == s {
            p.push(e.to)
        } else {
            p
        }
    }
}

/// If the edge does not start at `s`.
pub open spec fn arrives(m: MetroMapView, s: StationID) -> spec_fn(EdgeID) -> bool {
    |e: EdgeID| m.edges[e.0].from != s
}

/// The stations before and after a station along the given edges of it:
/// before it, the starts of the edges that do not start at it, in the order
/// of the edges, wherever the edges that start at it stand; after it, the
/// ends of the edges that start at it, in order.
pub proof fn lemma_befores_afters_of_edges(m: MetroMapView, es: Seq<EdgeID>, s: StationID)
    ensures
        befores_of(m, es, s) == es.filter(arrives(m, s)).map_values(start_of(m)),
        afters_of(m, es, s) == es.filter(leaves(m, s)).map_values(end_of(m)),
        forall|i: int|
            0 <= i < es.len() && m.edges[#[trigger] es[i].0].from != s ==> befores_of(m, es, s).contains(
                m.edges[es[i].0].from,
            ),
        forall|i: int|
            0 <= i < es.len() && m.edges[#[trigger] es[i].0].from == s ==> afters_of(m, es, s).contains(
                m.edges[es[i].0].to,
            ),
    decreases es.len(),
{
    reveal(Seq::filter);
    if es.len() == 0 {
        assert(es.filter(arrives(m, s)).map_values(start_of(m)) =~= Seq::<StationID>::empty());
        assert(es.filter(leaves(m, s)).map_values(end_of(m)) =~= Seq::<StationID>::empty());
    } else {
        let d = es.drop_last();
        let x = es.last();
        lemma_befores_afters_of_edges(m, d, s);
        assert(es.filter(arrives(m, s)) == if arrives(m, s)(x) {
            d.filter(arrives(m, s)).push(x)
        } else {
            d.filter(arrives(m, s))
        });
        assert(es.filter(leaves(m, s)) == if leaves(m, s)(x) {
            d.filter(leaves(m, s)).push(x)
        } else {
            d.filter(leaves(m, s))
        });
        assert(d.filter(arrives(m, s)).push(x).map_values(start_of(m)) =~= d.filter(arrives(m, s)).map_values(
            start_of(m),
        ).push(m.edges[x.0].from));
        assert(d.filter(leaves(m, s)).push(x).map_values(end_of(m)) =~= d.filter(leaves(m, s)).map_values(
            end_of(m),
        ).push(m.edges[x.0].to));
        let b = befores_of(m, es, s);
        let bd = befores_of(m, d, s);
        assert forall|i: int| 0 <= i < es.len() && m.edges[#[trigger] es[i].0].from != s implies b.contains(
            m.edges[es[i].0].from) by {
            if i < d.len() {
                assert(d[i] == es[i]);
                let q = choose|q: int| 0 <= q < bd.len() && bd[q] == m.edges[d[i].0].from;
                assert(b[q] == bd[q]);
            } else {
                assert(b[b.len() - 1] == m.edges[x.0].from);
            }
        }
        let a = afters_of(m, es, s);
        let ad = afters_of(m, d, s);
        assert forall|i: int| 0 <= i < es.len() && m.edges[#[trigger] es[i].0].from == s implies a.contains(
            m.edges[es[i].0].to) by {
            if i < d.len() {
                assert(d[i] == es[i]);
                let q = choose|q: int| 0 <= q < ad.len() && ad[q] == m.edges[d[i].0].to;
                assert(a[q] == ad[q]);
            } else {
                assert(a[a.len() - 1] == m.edges[x.0].to);
            }
        }
    }
}

/// A station grabbed on the map (as a press or a box select grabs it) has
/// before it the start of each of its edges that does not start at it, in
/// the order of its edges, and after it the end of each of its edges that
/// starts at it.
pub proof fn lemma_grabbed_neighbors(m: MetroMapView, k: u64)
    ensures
        grabbed(m, k).before == m.stations[k].edges.filter(arrives(m, m.stations[k].id)).map_values(start_of(m)),
        grabbed(m, k).after == m.stations[k].edges.filter(leaves(m, m.stations[k].id)).map_values(end_of(m)),
        forall|i: int|
            0 <= i < m.stations[k].edges.len() && m.edges[#[trigger] m.stations[k].edges[i].0].from
                != m.stations[k].id ==> grabbed(m, k).before.contains(m.edges[m.stations[k].edges[i].0].from),
        forall|i: int|
            0 <= i < m.stations[k].edges.len() && m.edges[#[trigger] m.stations[k].edges[i].0].from
                == m.stations[k].id ==> grabbed(m, k).after.contains(m.edges[m.stations[k].edges[i].0].to),
{
    lemma_befores_afters_of_edges(m, m.stations[k].edges, m.stations[k].id);
}

/// The station with number `k`, selected where it stands, with the stations
/// before and after it along its edges.
pub open spec fn grabbed(m: MetroMapView, k: u64) -> SelectedStationView {
    let s = m.stations[k];
    SelectedStationView {
        station: s,
        before: befores_of(m, s.edges, s.id),
        after: afters_of(m, s.edges, s.id),
        moved_from: Some(s.pos),
    }
}

/// Every edge that a station of the map lists is an edge of the map.
pub open spec fn station_edges_listed(m: MetroMapView) -> bool {
    forall|k: u64, i: int|
        #![trigger m.stations[k].edges[i]]
        m.stations.contains_key(k) && 0 <= i < m.stations[k].edges.len() ==> m.edges.contains_key(
            m.stations[k].edges[i].0,
        )
}

/// If the node lies in the box from `start` to `end`, borders included.
pub open spec fn in_box(n: GridNode, start: GridNode, end: GridNode) -> bool {
    start.0 <= n.0 <= end.0 && start.1 <= n.1 <= end.1
}

/// Select the station of the map with the given id where it stands, with the
/// stations before and after it along its edges.
fn grab_station(map: &MetroMap, id: StationID) -> (r: SelectedStation)
    requires
        map@.stations.contains_key(id.0),
        map@.stations[id.0].id == id,
        station_edges_listed(map@),
    ensures
        r@ == grabbed(map@, id.0),
{
    let station = map.get_station(id).unwrap();
    let mut selected = SelectedStation::new(station.clone());
    let edges = station.get_edges();
    let ghost m = map@;
    let mut i: usize = 0;
    while i < edges.len()
        invariant
            i <= edges@.len(),
            m == map@,
            m.stations.contains_key(id.0),
            edges@ == m.stations[id.0].edges,
            station_edges_listed(m),
            selected@.station == m.stations[id.0],
            selected@.moved_from == Some(m.stations[id.0].pos),
            selected@.before == befores_of(m, edges@.take(i as int), id),
            selected@.after == afters_of(m, edges@.take(i as int), id),
        decreases edges@.len() - i,
    {
        assert(edges@.take(i + 1).drop_last() =~= edges@.take(i as int));
        assert(m.edges.contains_key(m.stations[id.0].edges[i as int].0));
        let edge = map.get_edge(edges[i]).unwrap();
        if edge.get_from() == id {
            selected.add_after(edge.get_to());
        } else {
            selected.add_before(edge.get_from());
        }
        i = i + 1;
    }
    assert(edges@.take(edges@.len() as int) =~= edges@);
    selected
}

/// The selected station is one of the map standing in the box from
/// `start` to `end`.
pub open spec fn grabbed_in_box(m: MetroMapView, x: SelectedStationView, start: GridNode, end: GridNode) -> bool {
    exists|k: u64| #[trigger] m.stations.contains_key(k) && in_box(m.stations[k].pos, start, end) && x == grabbed(m, k)
}

/// The stations selected by a box: each added one is a station of the map
/// in the box, each station in the box is added, and none twice.
proof fn lemma_box_selection(
    m: MetroMapView,
    n: nat,
    f: Seq<SelectedStationView>,
    inside: Seq<u64>,
    start: GridNode,
    end: GridNode,
)
    requires
        m.wf(),
        f.len() == n + inside.len(),
        forall|t: int| 0 <= t < inside.len() ==> #[trigger] f[n + t] == grabbed(m, inside[t]),
        forall|t: int| 0 <= t < inside.len() ==> m.stations.contains_key(#[trigger] inside[t]) && in_box(m.stations[inside[t]].pos, start, end),
        forall|k: u64| #[trigger] inside.contains(k) <==> (m.stations.contains_key(k) && in_box(m.stations[k].pos, start, end)),
        inside.no_duplicates(),
    ensures
        forall|i: int| n <= i < f.len() ==> grabbed_in_box(m, #[trigger] f[i], start, end),
        forall|k: u64| #[trigger] m.stations.contains_key(k) && in_box(m.stations[k].pos, start, end)
            ==> exists|i: int| n <= i < f.len() && #[trigger] f[i] == grabbed(m, k),
        forall|i: int, j: int| n <= i < j < f.len() ==> #[trigger] f[i].station.id != #[trigger] f[j].station.id,
{
    assert forall|t: int| n <= t < f.len() implies grabbed_in_box(m, #[trigger] f[t], start, end) by {
        assert(f[n + (t - n)] == grabbed(m, inside[t - n]));
        assert(m.stations.contains_key(inside[t - n]));
    }
    assert forall|k: u64| #[trigger] m.stations.contains_key(k) && in_box(m.stations[k].pos, start, end) implies
        exists|i: int| n <= i < f.len() && #[trigger] f[i] == grabbed(m, k) by {
        assert(inside.contains(k));
        let t = choose|t: int| 0 <= t < inside.len() && inside[t] == k;
        assert(f[n + t] == grabbed(m, k));
    }
    assert forall|a: int, b: int| n <= a < b < f.len() implies #[trigger] f[a].station.id != #[trigger] f[b].station.id by {
        assert(f[n + (a - n)] == grabbed(m, inside[a - n]));
        assert(f[n + (b - n)] == grabbed(m, inside[b - n]));
        assert(inside[a - n] != inside[b - n]);
        assert(m.stations.contains_key(inside[a - n]));
        assert(m.stations.contains_key(inside[b - n]));
        assert(m.stations[inside[a - n]].id.0 == inside[a - n]);
        assert(m.stations[inside[b - n]].id.0 == inside[b - n]);
    }
}

/// `f` is `v` once what lies in the box from `start` to `end` has been
/// selected: each station of the map standing in it is added to the
/// selected stations (with the stations before and after it), and the
/// selected edges become exactly the edges of the map both of whose ends
/// were so selected.
pub open spec fn box_selection(v: MapStateView, f: MapStateView, start: GridNode, end: GridNode) -> bool {
    let m = v.map;
    let n = v.selected_stations.len();
    let sel = f.selected_stations;
    &&& v.selected_stations.is_prefix_of(sel)
    &&& forall|i: int| n <= i < sel.len() ==> grabbed_in_box(m, #[trigger] sel[i], start, end)
    &&& forall|k: u64| #[trigger] m.stations.contains_key(k) && in_box(m.stations[k].pos, start, end)
        ==> exists|i: int| n <= i < sel.len() && #[trigger] sel[i] == grabbed(m, k)
    &&& forall|i: int, j: int| n <= i < j < sel.len() ==> #[trigger] sel[i].station.id != #[trigger] sel[j].station.id
    &&& f.selected_edges.no_duplicates()
    &&& forall|k: u64| #[trigger] m.edges.contains_key(k) ==> (f.selected_edges.contains(EdgeID(k))
        <==> (m.stations.contains_key(m.edges[k].from.0) && in_box(m.stations[m.edges[k].from.0].pos, start, end)
        && m.stations.contains_key(m.edges[k].to.0) && in_box(m.stations[m.edges[k].to.0].pos, start, end)))
    &&& forall|i: int| 0 <= i < f.selected_edges.len() ==> m.edges.contains_key(#[trigger] f.selected_edges[i].0)
    &&& f == (MapStateView {
        map: with_edges_selected(
            with_edges_selected(m, v.selected_edges, false),
            f.selected_edges,
            true,
        ),
        selected_stations: sel,
        selected_edges: f.selected_edges,
        ..v
    })
}

/// `f` is `v` once some station of the map on `node` has been pressed: if
/// it is selected, nothing changes; else it is selected with the stations
/// before and after it, replacing the selected stations unless shift is
/// held.
pub open spec fn station_picked(v: MapStateView, f: MapStateView, node: GridNode, shift_key: bool) -> bool {
    exists|k: u64|
        #[trigger] v.map.stations.contains_key(k) && v.map.stations[k].pos == node && if selected_ids(
            v.selected_stations,
        ).contains(StationID(k)) {
            f == v
        } else {
            f == (MapStateView {
                selected_stations: if shift_key {
                    v.selected_stations
                } else {
                    Seq::empty()
                }.push(grabbed(v.map, k)),
                ..v
            })
        }
}

impl MapState {
    /// Select what lies in the box from `start` to `end`: each station of
    /// the map standing in it is added to the selected stations (with the
    /// stations before and after it), and the selected edges become exactly
    /// the edges of the map both of whose ends were so selected.
    pub fn select_in_box(&mut self, start: GridNode, end: GridNode)
        requires
            old(self)@.edges_valid(),
            old(self)@.map.wf(),
            station_edges_listed(old(self)@.map),
        ensures
            box_selection(old(self)@, final(self)@, start, end),
    {
        let ghost v = self@;
        let ghost m = self@.map;
        let keys = self.map.station_ids();
        let mut inside: Vec<u64> = Vec::new();
        let mut i: usize = 0;
        while i < keys.len()
            invariant
                i <= keys@.len(),
                m == self@.map,
                m.wf(),
                station_edges_listed(m),
                keys@.no_duplicates(),
                forall|q: int| 0 <= q < keys@.len() ==> m.stations.contains_key(#[trigger] keys@[q].0),
                forall|k: u64| m.stations.contains_key(k) ==> keys@.contains(StationID(k)),
                self@ == (MapStateView { selected_stations: self@.selected_stations, ..v }),
                v.selected_stations.is_prefix_of(self@.selected_stations),
                self@.selected_stations.len() == v.selected_stations.len() + inside@.len(),
                forall|t: int| 0 <= t < inside@.len() ==> #[trigger] self@.selected_stations[v.selected_stations.len() + t] == grabbed(m, inside@[t]),
                forall|t: int| 0 <= t < inside@.len() ==> m.stations.contains_key(#[trigger] inside@[t]) && in_box(m.stations[inside@[t]].pos, start, end),
                forall|k: u64| #[trigger] inside@.contains(k) <==> exists|q: int| 0 <= q < i && keys@[q].0 == k && in_box(m.stations[k].pos, start, end),
                inside@.no_duplicates(),
            decreases keys@.len() - i,
        {
            let k = keys[i];
            assert(m.stations.contains_key(keys@[i as int].0));
            let pos = self.map.get_station(k).unwrap().get_pos();
            let ghost before_inside = inside@;
            let ghost before_sel = self@.selected_stations;
            if start.0 <= pos.0 && pos.0 <= end.0 && start.1 <= pos.1 && pos.1 <= end.1 {
                assert(m.stations[k.0].id.0 == k.0);
                let grabbed_station = grab_station(&self.map, k);
                self.select_station(grabbed_station);
                inside.push(k.0);
                proof {
                    assert(!before_inside.contains(k.0)) by {
                        if before_inside.contains(k.0) {
                            let q = choose|q: int| 0 <= q < i && keys@[q].0 == k.0 && in_box(m.stations[k.0].pos, start, end);
                            assert(keys@[q] == keys@[i as int]);
                        }
                    }
                    assert forall|a: int, b: int| 0 <= a < b < inside@.len() implies inside@[a] != inside@[b] by {
                        if b == before_inside.len() {
                            assert(before_inside.contains(inside@[a]));
                        } else {
                            assert(before_inside[a] != before_inside[b]);
                        }
                    }
                    assert forall|kk: u64| #[trigger] inside@.contains(kk) <==> exists|q: int| 0 <= q < i + 1 && keys@[q].0 == kk && in_box(m.stations[kk].pos, start, end) by {
                        lemma_push_contains(before_inside, k.0, kk);
                    }
                    assert(v.selected_stations =~= self@.selected_stations.subrange(0, v.selected_stations.len() as int)) by {
                        assert(v.selected_stations =~= before_sel.subrange(0, v.selected_stations.len() as int));
                    }
                }
            } else {
                proof {
                    assert forall|kk: u64| #[trigger] inside@.contains(kk) <==> exists|q: int| 0 <= q < i + 1 && keys@[q].0 == kk && in_box(m.stations[kk].pos, start, end) by {
                        if exists|q: int| 0 <= q < i + 1 && keys@[q].0 == kk && in_box(m.stations[kk].pos, start, end) {
                            let q = choose|q: int| 0 <= q < i + 1 && keys@[q].0 == kk && in_box(m.stations[kk].pos, start, end);
                            if q == i {
                                assert(m.stations[k.0].pos == pos);
                            }
                        }
                    }
                }
            }
            i = i + 1;
        }
        let edge_keys = self.map.edge_ids();
        let mut chosen: Vec<EdgeID> = Vec::new();
        let mut j: usize = 0;
        while j < edge_keys.len()
            invariant
                j <= edge_keys@.len(),
                m == self@.map,
                edge_keys@.no_duplicates(),
                forall|q: int| 0 <= q < edge_keys@.len() ==> m.edges.contains_key(#[trigger] edge_keys@[q].0),
                forall|k: u64| #[trigger] inside@.contains(k) <==> (m.stations.contains_key(k) && in_box(m.stations[k].pos, start, end)),
                chosen@.no_duplicates(),
                forall|t: int| 0 <= t < chosen@.len() ==> m.edges.contains_key(#[trigger] chosen@[t].0),
                forall|e: EdgeID| #[trigger] chosen@.contains(e) <==> exists|q: int|
                    0 <= q < j && edge_keys@[q] == e && inside@.contains(m.edges[e.0].from.0) && inside@.contains(m.edges[e.0].to.0),
            decreases edge_keys@.len() - j,
        {
            let id = edge_keys[j];
            assert(m.edges.contains_key(edge_keys@[j as int].0));
            let edge = self.map.get_edge(id).unwrap();
            let ghost before = chosen@;
            if holds_key(&inside, edge.get_from().0) && holds_key(&inside, edge.get_to().0) {
                chosen.push(id);
                proof {
                    assert(!before.contains(id)) by {
                        if before.contains(id) {
                            let q = choose|q: int|
                                0 <= q < j && edge_keys@[q] == id && inside@.contains(m.edges[id.0].from.0) && inside@.contains(m.edges[id.0].to.0);
                            assert(edge_keys@[q] == edge_keys@[j as int]);
                        }
                    }
                    assert forall|a: int, b: int| 0 <= a < b < chosen@.len() implies chosen@[a] != chosen@[b] by {
                        if b == before.len() {
                            assert(before.contains(chosen@[a]));
                        } else {
                            assert(before[a] != before[b]);
                        }
                    }
                    assert forall|e: EdgeID| #[trigger] chosen@.contains(e) <==> exists|q: int|
                        0 <= q < j + 1 && edge_keys@[q] == e && inside@.contains(m.edges[e.0].from.0) && inside@.contains(m.edges[e.0].to.0) by {
                        lemma_push_contains(before, id, e);
                    }
                }
            } else {
                proof {
                    assert forall|e: EdgeID| #[trigger] chosen@.contains(e) <==> exists|q: int|
                        0 <= q < j + 1 && edge_keys@[q] == e && inside@.contains(m.edges[e.0].from.0) && inside@.contains(m.edges[e.0].to.0) by {
                        if exists|q: int| 0 <= q < j + 1 && edge_keys@[q] == e && inside@.contains(m.edges[e.0].from.0) && inside@.contains(m.edges[e.0].to.0) {
                            let q = choose|q: int| 0 <= q < j + 1 && edge_keys@[q] == e && inside@.contains(m.edges[e.0].from.0) && inside@.contains(m.edges[e.0].to.0);
                            if q == j {
                                assert(edge@ == m.edges[id.0]);
                            }
                        }
                    }
                }
            }
            j = j + 1;
        }
        let ghost sel_stations = self@.selected_stations;
        proof {
            assert forall|k: u64| #[trigger] m.edges.contains_key(k) implies (chosen@.contains(EdgeID(k))
                <==> (m.stations.contains_key(m.edges[k].from.0) && in_box(m.stations[m.edges[k].from.0].pos, start, end)
                && m.stations.contains_key(m.edges[k].to.0) && in_box(m.stations[m.edges[k].to.0].pos, start, end))) by {
                if inside@.contains(m.edges[k].from.0) && inside@.contains(m.edges[k].to.0) {
                    assert(edge_keys@.contains(EdgeID(k)));
                }
            }
        }
        self.set_selected_edges(chosen);
        proof {
            lemma_box_selection(m, v.selected_stations.len(), self@.selected_stations, inside@, start, end);
        }
    }
}

impl MapState {
    /// A press on the node: where a station stands on it that is not yet
    /// selected, it is selected with the stations before and after it,
    /// replacing the selected stations unless shift is held. Returns
    /// whether a station stands on the node.
    pub fn select_station_at(&mut self, node: GridNode, shift_key: bool) -> (r: bool)
        requires
            old(self)@.map.wf(),
            station_edges_listed(old(self)@.map),
        ensures
            r == exists|k: u64| #[trigger] old(self)@.map.stations.contains_key(k) && old(self)@.map.stations[k].pos == node,
            !r ==> final(self)@ == old(self)@,
            r ==> station_picked(old(self)@, final(self)@, node, shift_key),
    {
        let ghost m = self@.map;
        match self.map.station_at_node(node) {
            Some(id) => {
                assert(m.stations[id.0].id.0 == id.0);
                if self.is_selected_station(id) {
                    return true;
                }
                let selected = grab_station(&self.map, id);
                if !shift_key {
                    self.clear_selected_stations();
                }
                self.select_station(selected);
                true
            },
            None => false,
        }
    }
}

/// What the canvas is left to do after a mouse release.
#[derive(Clone, Copy, Debug, PartialEq, Eq, Structural)]
pub enum MouseUpEffect {
    /// A second (or later) click of a multiple click: nothing was done.
    Ignored,
    /// The selected action was applied on the node.
    ActionApplied,
    /// The station on the node was put on the selected line.
    StationAddedToLine,
    /// The only selected edge was clicked: its information is to be shown.
    ClickedEdge(EdgeID),
    /// The only selected station was clicked without being moved: its
    /// information is to be shown.
    ClickedStation(StationID),
    /// The moved stations were dropped where they were dragged to.
    StationsDropped,
    /// What lies in the box was selected; the box is done with.
    BoxSelected,
    /// All selections were cleared.
    SelectionCleared,
    /// Nothing changed.
    Nothing,
}

/// What the canvas is to start after a mouse press.
#[derive(Clone, Copy, Debug, PartialEq, Eq, Structural)]
pub enum MouseDownEffect {
    /// Nothing.
    Nothing,
    /// Dragging the selection from the pressed point.
    DragSelection,
    /// A box select from the pressed point.
    BoxSelect,
    /// Dragging the canvas as a whole.
    DragCanvas,
}

/// A station of the map stands on the node.
pub open spec fn station_on(m: MetroMapView, node: GridNode) -> bool {
    exists|k: u64| #[trigger] m.stations.contains_key(k) && m.stations[k].pos == node
}

/// An edge of the map goes through the node.
pub open spec fn edge_on(m: MetroMapView, node: GridNode) -> bool {
    exists|k: u64| #[trigger] m.edges.contains_key(k) && edge_visits(m, m.edges[k], node)
}

/// The state with all selections cleared (see
/// [`MapState::clear_all_selections`]).
pub open spec fn all_cleared(v: MapStateView) -> MapStateView {
    MapStateView {
        map: with_edges_selected(v.map, v.selected_edges, false),
        selected_stations: Seq::empty(),
        selected_line: None,
        selected_action: None,
        selected_edges: Seq::empty(),
        ..v
    }
}

/// The state with no line selected.
pub open spec fn line_let_go(v: MapStateView) -> MapStateView {
    MapStateView { selected_line: None, ..v }
}

/// If the selected station has been moved from where it stood.
pub open spec fn has_moved(s: SelectedStationView) -> bool {
    s.moved_from != Some(s.station.pos)
}

/// A release on `node` gets past the selected action and the selected line:
/// there is no action, and a selected line neither takes a station on the
/// node nor was grabbed elsewhere nor ends in a click on the only selected
/// edge.
pub open spec fn up_passes_line(v: MapStateView, node: GridNode, shift_key: bool) -> bool {
    &&& v.selected_action is None
    &&& v.selected_line is Some ==> {
        &&& !station_on(v.map, node)
        &&& v.selected_line->0.grabbed_at is Some ==> {
            &&& v.selected_line->0.grabbed_at == Some(node)
            &&& !(edge_on(v.map, node) && !shift_key && v.selected_edges.len() == 1)
        }
    }
}

/// A release on `node` is a click on the only selected station, which has
/// not moved.
pub open spec fn up_clicks_station(v: MapStateView, node: GridNode, shift_key: bool) -> bool {
    station_on(v.map, node) && !shift_key && v.selected_stations.len() == 1 && !has_moved(v.selected_stations[0])
}

/// A release drops the selected stations: shift is not held and one of
/// them has moved.
pub open spec fn up_drops(v: MapStateView, shift_key: bool) -> bool {
    !shift_key && exists|i: int| 0 <= i < v.selected_stations.len() && #[trigger] has_moved(v.selected_stations[i])
}

/// The state once a press on `node` has picked the line there, if one of
/// the map's lines passes it: it becomes the selected line, grabbed at the
/// node between the stations on either side of it.
pub open spec fn line_picked(v: MapStateView, f: MapStateView, node: GridNode) -> bool {
    if exists|k: u64| #[trigger] v.map.lines.contains_key(k) && line_visits(v.map, v.map.lines[k], node) {
        exists|k: u64|
            #[trigger] v.map.lines.contains_key(k) && line_visits(v.map, v.map.lines[k], node) && f == (MapStateView {
                selected_line: Some(
                    SelectedLineView {
                        line: v.map.lines[k].id,
                        grabbed_at: Some(node),
                        before_after: edge_stations(v.map, v.map.lines[k], node),
                        current_hover: node,
                    },
                ),
                ..v
            })
    } else {
        f == v
    }
}

impl MapState {
    /// If one of the selected stations has been moved.
    fn any_station_moved(&self) -> (r: bool)
        ensures
            r == exists|i: int| 0 <= i < self@.selected_stations.len() && #[trigger] has_moved(self@.selected_stations[i]),
    {
        let mut i: usize = 0;
        while i < self.selected_stations.len()
            invariant
                i <= self@.selected_stations.len(),
                forall|j: int| 0 <= j < i ==> !#[trigger] has_moved(self@.selected_stations[j]),
            decreases self@.selected_stations.len() - i,
        {
            if self.selected_stations[i].has_moved() {
                assert(has_moved(self@.selected_stations[i as int]));
                return true;
            }
            i = i + 1;
        }
        false
    }

    /// Handle the release of the mouse on `node` (`clicks` tells which click
    /// of a multiple click it is; `box_select` holds the corners of the box
    /// being drawn, if one is). The branches are tried in order: a multiple
    /// click is ignored; the selected action is applied; the selected line
    /// takes the station on the node, or is let go of (clearing all
    /// selections if it was grabbed elsewhere, and showing the only selected
    /// edge if that was clicked); a click on the only selected station that
    /// has not moved shows it; moved stations are dropped; the box selects
    /// what lies in it; else, without shift, all selections are cleared.
    /// The routes of the edges are left as they are.
    pub fn on_mouse_up(
        &mut self,
        node: GridNode,
        clicks: u32,
        shift_key: bool,
        box_select: Option<(GridNode, GridNode)>,
        ids: &mut IDManager,
    ) -> (r: MouseUpEffect)
        requires
            old(self)@.map.wf(),
            old(self)@.edges_valid(),
            old(self)@.selected_action == Some(ActionType::RemoveStation) || old(self)@.selected_action == Some(
                ActionType::RemoveLine,
            ) ==> editable(old(self)@.map, *old(ids)),
            old(self)@.selected_action is None && old(self)@.selected_line is Some ==> {
                &&& fresh_edge_ids(old(self)@.map, *old(ids))
                &&& old(ids).edge_counter() < u64::MAX - 1
                &&& grab_fits(old(self)@.map, old(self)@.selected_line->0)
            },
            up_passes_line(old(self)@, node, shift_key) && !up_clicks_station(old(self)@, node, shift_key) && up_drops(
                old(self)@,
                shift_key,
            ) ==> forall|i: int|
                0 <= i < old(self)@.selected_stations.len() ==> old(self)@.map.stations.contains_key(
                    (#[trigger] old(self)@.selected_stations[i]).station.id.0,
                ),
            box_select is Some ==> station_edges_listed(old(self)@.map),
            old(self)@.selected_action is None && old(self)@.selected_line is Some ==> forall|m: MetroMapView|
                #[trigger] put_on_line(old(self)@, node, old(ids).edge_counter(), m) ==> forall|i: int|
                    0 <= i < old(self)@.selected_edges.len() ==> m.edges.contains_key(
                        #[trigger] old(self)@.selected_edges[i].0,
                    ),
        ensures
            clicks > 1 ==> r == MouseUpEffect::Ignored && final(self)@ == old(self)@,
            clicks <= 1 && old(self)@.selected_action is Some ==> {
                &&& r == MouseUpEffect::ActionApplied
                &&& action_done(old(self)@.selected_action->0, old(self)@.map, final(self)@.map, node)
                &&& final(self)@ == (MapStateView {
                    map: final(self)@.map,
                    selected_action: if shift_key {
                        old(self)@.selected_action
                    } else {
                        None
                    },
                    ..old(self)@
                })
            },
            clicks <= 1 && old(self)@.selected_action is None && old(self)@.selected_line is Some && station_on(
                old(self)@.map,
                node,
            ) ==> {
                &&& r == MouseUpEffect::StationAddedToLine
                &&& exists|m: MetroMapView|
                    #![trigger put_on_line(old(self)@, node, old(ids).edge_counter(), m)]
                    put_on_line(old(self)@, node, old(ids).edge_counter(), m) && final(self)@ == all_cleared(
                        MapStateView { map: m, ..old(self)@ },
                    )
            },
            clicks <= 1 && old(self)@.selected_action is None && old(self)@.selected_line is Some && !station_on(
                old(self)@.map,
                node,
            ) && old(self)@.selected_line->0.grabbed_at is Some && old(self)@.selected_line->0.grabbed_at != Some(node)
                ==> r == MouseUpEffect::SelectionCleared && final(self)@ == all_cleared(old(self)@),
            clicks <= 1 && old(self)@.selected_action is None && old(self)@.selected_line is Some && !station_on(
                old(self)@.map,
                node,
            ) && old(self)@.selected_line->0.grabbed_at == Some(node) && edge_on(old(self)@.map, node) && !shift_key
                && old(self)@.selected_edges.len() == 1 ==> r == MouseUpEffect::ClickedEdge(old(self)@.selected_edges[0])
                && final(self)@ == all_cleared(old(self)@),
            clicks <= 1 && up_passes_line(old(self)@, node, shift_key) && up_clicks_station(old(self)@, node, shift_key)
                ==> r == MouseUpEffect::ClickedStation(old(self)@.selected_stations[0].station.id) && final(self)@
                == all_cleared(old(self)@),
            clicks <= 1 && up_passes_line(old(self)@, node, shift_key) && !up_clicks_station(old(self)@, node, shift_key)
                && up_drops(old(self)@, shift_key) ==> r == MouseUpEffect::StationsDropped && final(self)@ == all_cleared(
                MapStateView { map: stations_dropped(old(self)@.map, old(self)@.selected_stations), ..old(self)@ },
            ),
            clicks <= 1 && up_passes_line(old(self)@, node, shift_key) && !up_clicks_station(old(self)@, node, shift_key)
                && !up_drops(old(self)@, shift_key) && box_select is Some ==> r == MouseUpEffect::BoxSelected
                && box_selection(line_let_go(old(self)@), final(self)@, box_select.unwrap().0, box_select.unwrap().1),
            clicks <= 1 && up_passes_line(old(self)@, node, shift_key) && !up_clicks_station(old(self)@, node, shift_key)
                && !up_drops(old(self)@, shift_key) && box_select is None ==> if shift_key {
                r == MouseUpEffect::Nothing && final(self)@ == line_let_go(old(self)@)
            } else {
                r == MouseUpEffect::SelectionCleared && final(self)@ == all_cleared(old(self)@)
            },
            r != MouseUpEffect::ActionApplied && r != MouseUpEffect::StationAddedToLine ==> *final(ids) == *old(ids),
    {
        if clicks > 1 {
            return MouseUpEffect::Ignored;
        }
        let ghost v = self@;
        let station_here = self.map.station_at_node(node).is_some();
        let edge_here = self.map.edge_at_node(node).is_some();
        if self.selected_action.is_some() {
            let _ = self.apply_selected_action(node, shift_key, ids);
            return MouseUpEffect::ActionApplied;
        }
        match self.selected_line {
            Some(sl) => {
                if station_here {
                    let _ = self.add_station_to_selected_line(node, ids);
                    proof {
                        assert(put_on_line(v, node, old(ids).edge_counter(), self@.map));
                        assert(self@ == line_let_go(MapStateView { map: self@.map, ..v }));
                    }
                    self.clear_all_selections();
                    return MouseUpEffect::StationAddedToLine;
                }
                self.clear_selected_line();
                match sl.get_grabbed_at() {
                    Some(g) => {
                        if g != node {
                            self.clear_all_selections();
                            return MouseUpEffect::SelectionCleared;
                        }
                        if edge_here && !shift_key && self.selected_edges.len() == 1 {
                            let e = self.selected_edges[0];
                            self.clear_all_selections();
                            return MouseUpEffect::ClickedEdge(e);
                        }
                    },
                    None => {},
                }
            },
            None => {},
        }
        assert(self@ == line_let_go(v));
        if station_here && !shift_key && self.selected_stations.len() == 1 && !self.selected_stations[0].has_moved() {
            let id = self.selected_stations[0].get_station().get_id();
            self.clear_all_selections();
            return MouseUpEffect::ClickedStation(id);
        }
        assert(self@.selected_stations == v.selected_stations);
        let moved = self.any_station_moved();
        assert(moved == exists|i: int| 0 <= i < v.selected_stations.len() && #[trigger] has_moved(v.selected_stations[i]));
        if !shift_key && moved {
            proof {
                lemma_dropped_keeps_edges(v.map, v.selected_stations);
            }
            let _ = self.drop_moved_stations();
            assert(self@ == MapStateView {
                map: stations_dropped(v.map, v.selected_stations),
                selected_stations: Seq::empty(),
                ..line_let_go(v)
            });
            self.clear_all_selections();
            assert(self@ == all_cleared(MapStateView { map: stations_dropped(v.map, v.selected_stations), ..v }));
            return MouseUpEffect::StationsDropped;
        }
        match box_select {
            Some((start, end)) => {
                self.select_in_box(start, end);
                return MouseUpEffect::BoxSelected;
            },
            None => {},
        }
        if !shift_key {
            self.clear_all_selections();
            return MouseUpEffect::SelectionCleared;
        }
        MouseUpEffect::Nothing
    }
}

impl MapState {
    /// Handle a press of the mouse on `node` (`clicks` tells which click of
    /// a multiple click it is; `dragging` whether a drag is under way). The
    /// branches are tried in order: a multiple click, or a press with an
    /// action selected, does nothing (actions are applied on release); a new
    /// selected station is placed on the node; the selected line takes the
    /// station on the node, if there is one, and is let go of; the station
    /// on the node is pressed (see [`MapState::select_station_at`]) and
    /// dragged; else the line through the node, if there is one, is
    /// selected, and the edge through it, if there is one, is picked (see
    /// [`MapState::select_edge_at`]) and dragged; else, with shift, a box
    /// select starts, or, without, the canvas is dragged, unless a drag is
    /// under way.
    pub fn on_mouse_down(
        &mut self,
        node: GridNode,
        clicks: u32,
        shift_key: bool,
        dragging: bool,
        ids: &mut IDManager,
    ) -> (r: MouseDownEffect)
        requires
            old(self)@.map.wf(),
            old(self)@.edges_valid(),
            old(self)@.selected_line is Some ==> {
                &&& fresh_edge_ids(old(self)@.map, *old(ids))
                &&& old(ids).edge_counter() < u64::MAX - 1
                &&& grab_fits(old(self)@.map, old(self)@.selected_line->0)
            },
            old(self)@.selected_line is None ==> {
                &&& old(self)@.map.lines_valid()
                &&& old(self)@.map.edges_attached()
                &&& stations_inside_grid(old(self)@.map)
                &&& line_stations_listed(old(self)@.map)
                &&& station_edges_listed(old(self)@.map)
            },
        ensures
            clicks > 1 || old(self)@.selected_action is Some ==> r == MouseDownEffect::Nothing && final(self)@ == old(
                self,
            )@,
            clicks <= 1 && old(self)@.selected_action is None && old(self)@.selected_stations.len() > 0
                && old(self)@.selected_stations[0].moved_from is None ==> r == MouseDownEffect::Nothing && final(self)@
                == station_placed(old(self)@, node),
            clicks <= 1 && old(self)@.selected_action is None && !(old(self)@.selected_stations.len() > 0
                && old(self)@.selected_stations[0].moved_from is None) && old(self)@.selected_line is Some ==> {
                &&& r == MouseDownEffect::Nothing
                &&& final(self)@ == line_let_go(MapStateView { map: final(self)@.map, ..old(self)@ })
                &&& station_on(old(self)@.map, node) ==> put_on_line(
                    old(self)@,
                    node,
                    old(ids).edge_counter(),
                    final(self)@.map,
                )
                &&& !station_on(old(self)@.map, node) ==> final(self)@.map == old(self)@.map
            },
            clicks <= 1 && old(self)@.selected_action is None && !(old(self)@.selected_stations.len() > 0
                && old(self)@.selected_stations[0].moved_from is None) && old(self)@.selected_line is None && station_on(
                old(self)@.map,
                node,
            ) ==> r == MouseDownEffect::DragSelection && station_picked(old(self)@, final(self)@, node, shift_key),
            clicks <= 1 && old(self)@.selected_action is None && !(old(self)@.selected_stations.len() > 0
                && old(self)@.selected_stations[0].moved_from is None) && old(self)@.selected_line is None && !station_on(
                old(self)@.map,
                node,
            ) ==> exists|v: MapStateView|
                #[trigger] line_picked(old(self)@, v, node) && if edge_on(old(self)@.map, node) {
                    r == MouseDownEffect::DragSelection && edge_picked(v, final(self)@, node, shift_key)
                } else {
                    final(self)@ == v && r == if shift_key && !dragging {
                        MouseDownEffect::BoxSelect
                    } else if !dragging {
                        MouseDownEffect::DragCanvas
                    } else {
                        MouseDownEffect::Nothing
                    }
                },
            clicks > 1 || old(self)@.selected_line is None || old(self)@.selected_action is Some || (old(
                self,
            )@.selected_stations.len() > 0 && old(self)@.selected_stations[0].moved_from is None) ==> *final(ids)
                == *old(ids),
    {
        if clicks > 1 || self.selected_action.is_some() {
            return MouseDownEffect::Nothing;
        }
        let ghost v0 = self@;
        if self.place_new_station(node) {
            return MouseDownEffect::Nothing;
        }
        if self.selected_line.is_some() {
            let _ = self.add_station_to_selected_line(node, ids);
            return MouseDownEffect::Nothing;
        }
        if self.select_station_at(node, shift_key) {
            return MouseDownEffect::DragSelection;
        }
        match self.map.line_at_node(node) {
            Some(line) => {
                let selected = SelectedLine::new(line, &self.map, node, Some(node));
                self.set_selected_line(selected);
            },
            None => {},
        }
        let ghost v = self@;
        assert(line_picked(v0, v, node));
        if self.select_edge_at(node, shift_key) {
            return MouseDownEffect::DragSelection;
        }
        if shift_key && !dragging {
            return MouseDownEffect::BoxSelect;
        }
        if !dragging {
            return MouseDownEffect::DragCanvas;
        }
        MouseDownEffect::Nothing
    }
}

/// What a key press on the canvas asks for.
#[derive(Clone, Copy, Debug, PartialEq, Eq, Structural)]
pub enum KeyCommand {
    /// Escape: clear all selections.
    ClearSelections,
    /// Ctrl and `z`: go back to the map before the last change.
    Undo,
    /// Ctrl and `Z`: go forward again.
    Redo,
}

/// If the two byte strings are equal.
fn same_bytes(a: &[u8], b: &[u8]) -> (r: bool)
    ensures
        r == (a@ == b@),
{
    if a.len() != b.len() {
        return false;
    }
    let mut i: usize = 0;
    while i < a.len()
        invariant
            i <= a@.len(),
            a@.len() == b@.len(),
            forall|j: int| 0 <= j < i ==> a@[j] == b@[j],
        decreases a@.len() - i,
    {
        if a[i] != b[i] {
            return false;
        }
        i = i + 1;
    }
    assert(a@ =~= b@);
    true
}

/// The command a key press asks for, given the key's name (as the browser
/// names it) and whether ctrl is held: `Escape` clears the selections,
/// ctrl and `z` undoes, ctrl and `Z` redoes; other keys ask for nothing.
pub fn key_command(key: &[u8], ctrl: bool) -> (r: Option<KeyCommand>)
    ensures
        r == if key@ == seq![69u8, 115u8, 99u8, 97u8, 112u8, 101u8] {
            Some(KeyCommand::ClearSelections)
        } else if ctrl && key@ == seq![122u8] {
            Some(KeyCommand::Undo)
        } else if ctrl && key@ == seq![90u8] {
            Some(KeyCommand::Redo)
        } else {
            None
        },
{
    let escape: [u8; 6] = [69, 115, 99, 97, 112, 101];
    let lower_z: [u8; 1] = [122];
    let upper_z: [u8; 1] = [90];
    assert(escape@ =~= seq![69u8, 115u8, 99u8, 97u8, 112u8, 101u8]);
    assert(lower_z@ =~= seq![122u8]);
    assert(upper_z@ =~= seq![90u8]);
    if same_bytes(key, &escape) {
        Some(KeyCommand::ClearSelections)
    } else if ctrl && same_bytes(key, &lower_z) {
        Some(KeyCommand::Undo)
    } else if ctrl && same_bytes(key, &upper_z) {
        Some(KeyCommand::Redo)
    } else {
        None
    }
}

impl MapState {
    /// The map being edited.
    pub closed spec fn current(&self) -> MetroMap {
        self.map
    }

    /// Do what the key press asked for: clear the selections, or replace the
    /// map by the one the history goes back or forward to (where there is
    /// one; the map left behind can then be gone to again).
    pub fn apply_key_command(&mut self, command: KeyCommand, history: &mut HistoryState)
        requires
            old(history)@.wf(),
            command == KeyCommand::ClearSelections ==> old(self)@.edges_valid(),
        ensures
            final(history)@.wf(),
            command == KeyCommand::ClearSelections ==> {
                &&& final(self)@ == (MapStateView {
                    map: with_edges_selected(old(self)@.map, old(self)@.selected_edges, false),
                    selected_stations: Seq::empty(),
                    selected_line: None,
                    selected_action: None,
                    selected_edges: Seq::empty(),
                    ..old(self)@
                })
                &&& final(history)@ == old(history)@
            },
            command != KeyCommand::ClearSelections ==> {
                let (h, to) = if command == KeyCommand::Undo {
                    after_undo(old(history)@, old(self).current())
                } else {
                    after_redo(old(history)@, old(self).current())
                };
                &&& final(history)@ == h
                &&& match to {
                    Some(map) => final(self).current() == map && final(self)@ == (MapStateView { map: map@, ..old(self)@ }),
                    None => final(self).current() == old(self).current() && final(self)@ == old(self)@,
                }
            },
    {
        match command {
            KeyCommand::ClearSelections => {
                self.clear_all_selections();
            },
            KeyCommand::Undo => {
                if history.has_past() {
                    let mut current = MetroMap::new();
                    std::mem::swap(&mut current, &mut self.map);
                    match history.undo(current) {
                        Some(map) => {
                            self.map = map;
                        },
                        None => {},
                    }
                }
            },
            KeyCommand::Redo => {
                if history.has_future() {
                    let mut current = MetroMap::new();
                    std::mem::swap(&mut current, &mut self.map);
                    match history.redo(current) {
                        Some(map) => {
                            self.map = map;
                        },
                        None => {},
                    }
                }
            },
        }
    }
}

} // verus!
