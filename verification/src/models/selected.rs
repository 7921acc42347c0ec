//! Contains the [`SelectedLine`] and [`SelectedStation`] structs: what the
//! user holds while editing a line or moving a station.
use vstd::prelude::*;

use super::grid_node::GridNode;
use super::ids::{
    successor,
    IDManager,
    LineID,
    StationID,
};
use super::line::Line;
use super::map::{
    empty_line_view,
    stations_inside_grid,
    with_line,
    MetroMap,
};
use super::route::edge_stations;
use super::station::{
    Station,
    StationView,
};
use super::util::copy_vec;

verus! {

/// What a [`SelectedLine`] holds.
pub struct SelectedLineView {
    pub line: LineID,
    pub grabbed_at: Option<GridNode>,
    pub before_after: (Option<StationID>, Option<StationID>),
    pub current_hover: GridNode,
}

/// Holds information about the currently selected [`Line`].
#[derive(Debug, Copy, Clone)]
pub struct SelectedLine {
    /// The selected line.
    line: LineID,
    /// The coordinate the line was grabbed at.
    grabbed_at: Option<GridNode>,
    /// The stations before and after the point the line was grabbed if
    /// applicable.
    before_after: (Option<StationID>, Option<StationID>),
    /// The grid coordinate the user is currently hovering over.
    current_hover: GridNode,
}

impl View for SelectedLine {
    type V = SelectedLineView;

    closed spec fn view(&self) -> SelectedLineView {
        SelectedLineView {
            line: self.line,
            grabbed_at: self.grabbed_at,
            before_after: self.before_after,
            current_hover: self.current_hover,
        }
    }
}

impl SelectedLine {
    /// Select a line. Where it was grabbed at a node, the stations on either
    /// side of that node on the line are remembered.
    pub fn new(line: &Line, map: &MetroMap, current_hover: GridNode, grabbed_at: Option<GridNode>) -> (r: Self)
        requires
            stations_inside_grid(map@),
        ensures
            r@ == (SelectedLineView {
                line: line@.id,
                grabbed_at,
                before_after: match grabbed_at {
                    Some(node) => edge_stations(map@, line@, node),
                    None => (None, None),
                },
                current_hover,
            }),
    {
        let mut before_after: (Option<StationID>, Option<StationID>) = (None, None);
        match grabbed_at {
            Some(grabbed_node) => {
                before_after = line.get_edge_stations(map, grabbed_node);
            },
            None => {},
        }
        SelectedLine { line: line.get_id(), grabbed_at, before_after, current_hover }
    }

    /// Select a newly created line, which is added to the map with the next
    /// line id of `ids`. It hovers nowhere yet: at the smallest coordinates
    /// of the grid.
    pub fn new_line(map: &mut MetroMap, ids: &mut IDManager) -> (r: Self)
        requires
            old(map)@.wf(),
        ensures
            r@ == (SelectedLineView {
                line: LineID(old(ids).line_counter()),
                grabbed_at: None,
                before_after: (None, None),
                current_hover: GridNode(i32::MIN, i32::MIN),
            }),
            final(map)@ == with_line(old(map)@, empty_line_view(LineID(old(ids).line_counter()))),
            final(ids).line_counter() == successor(old(ids).line_counter()),
            final(ids).station_counter() == old(ids).station_counter(),
            final(ids).edge_counter() == old(ids).edge_counter(),
            final(map)@.wf(),
    {
        let line = Line::new(None, ids);
        let line_id = line.get_id();
        assert(line@ == empty_line_view(line_id));
        map.add_line(line);
        SelectedLine {
            line: line_id,
            current_hover: GridNode::from((i32::MIN, i32::MIN)),
            before_after: (None, None),
            grabbed_at: None,
        }
    }

    /// Get the current hover coordinate.
    pub fn get_current_hover(&self) -> (r: GridNode)
        ensures
            r == self@.current_hover,
    {
        self.current_hover
    }

    /// Set the current hover coordinate.
    pub fn set_current_hover(&mut self, at: GridNode)
        ensures
            final(self)@ == (SelectedLineView { current_hover: at, ..old(self)@ }),
    {
        self.current_hover = at;
    }

    /// Get the selected line.
    pub fn get_line(&self) -> (r: LineID)
        ensures
            r == self@.line,
    {
        self.line
    }

    /// Get the coordinate the line was grabbed at.
    pub fn get_grabbed_at(&self) -> (r: Option<GridNode>)
        ensures
            r == self@.grabbed_at,
    {
        self.grabbed_at
    }

    /// Get the stations before and after the point the line was grabbed.
    pub fn get_before_after(&self) -> (r: (Option<StationID>, Option<StationID>))
        ensures
            r == self@.before_after,
    {
        self.before_after
    }

    /// Set the station that came before the point the line was grabbed.
    pub fn set_before(&mut self, before: StationID)
        ensures
            final(self)@ == (SelectedLineView {
                before_after: (Some(before), old(self)@.before_after.1),
                ..old(self)@
            }),
    {
        self.before_after.0 = Some(before);
    }

    /// Set the station that came after the point the line was grabbed.
    pub fn set_after(&mut self, after: StationID)
        ensures
            final(self)@ == (SelectedLineView {
                before_after: (old(self)@.before_after.0, Some(after)),
                ..old(self)@
            }),
    {
        self.before_after.1 = Some(after);
    }
}

/// What a [`SelectedStation`] holds.
pub struct SelectedStationView {
    pub station: StationView,
    pub before: Seq<StationID>,
    pub after: Seq<StationID>,
    pub moved_from: Option<GridNode>,
}

/// Holds information about the currently selected [`Station`].
#[derive(Debug)]
pub struct SelectedStation {
    /// The selected station.
    station: Station,
    /// The stations before and after the station that was grabbed if
    /// applicable.
    before_after: (Vec<StationID>, Vec<StationID>),
    /// The position the user is moving the station from.
    moved_from: Option<GridNode>,
}

impl View for SelectedStation {
    type V = SelectedStationView;

    closed spec fn view(&self) -> SelectedStationView {
        SelectedStationView {
            station: self.station@,
            before: self.before_after.0@,
            after: self.before_after.1@,
            moved_from: self.moved_from,
        }
    }
}

impl SelectedStation {
    /// Select a station; it is moved from where it stands.
    pub fn new(station: Station) -> (r: Self)
        ensures
            r@ == (SelectedStationView {
                station: station@,
                before: Seq::empty(),
                after: Seq::empty(),
                moved_from: Some(station@.pos),
            }),
    {
        SelectedStation {
            moved_from: Some(station.get_pos()),
            station,
            before_after: (Vec::new(), Vec::new()),
        }
    }

    /// Select a newly created station, with the next station id of `ids`. It
    /// stands nowhere yet: at the smallest coordinates of the grid.
    pub fn new_station(ids: &mut IDManager) -> (r: Self)
        ensures
            r@.station.id == StationID(old(ids).station_counter()),
            r@.station.pos == GridNode(i32::MIN, i32::MIN),
            r@.station.original_pos == GridNode(i32::MIN, i32::MIN),
            r@.station.edges == Seq::<super::ids::EdgeID>::empty(),
            r@.station.name == Seq::<char>::empty(),
            !r@.station.is_locked && !r@.station.is_settled && !r@.station.is_ghost,
            r@.before == Seq::<StationID>::empty(),
            r@.after == Seq::<StationID>::empty(),
            r@.moved_from is None,
            final(ids).station_counter() == successor(old(ids).station_counter()),
            final(ids).edge_counter() == old(ids).edge_counter(),
            final(ids).line_counter() == old(ids).line_counter(),
    {
        let station = Station::new(GridNode::from((i32::MIN, i32::MIN)), None, ids);
        SelectedStation { station, before_after: (Vec::new(), Vec::new()), moved_from: None }
    }

    /// Get the station that is currently selected.
    pub fn get_station(&self) -> (r: &Station)
        ensures
            r@ == self@.station,
    {
        &self.station
    }

    /// Get the stations before and after the station that was grabbed.
    pub fn get_before_after(&self) -> (r: (&[StationID], &[StationID]))
        ensures
            r.0@ == self@.before,
            r.1@ == self@.after,
    {
        (self.before_after.0.as_slice(), self.before_after.1.as_slice())
    }

    /// Add a station that came before the station that was grabbed.
    pub fn add_before(&mut self, before: StationID)
        ensures
            final(self)@ == (SelectedStationView { before: old(self)@.before.push(before), ..old(self)@ }),
    {
        self.before_after.0.push(before);
    }

    /// Add a station that came after the station that was grabbed.
    pub fn add_after(&mut self, after: StationID)
        ensures
            final(self)@ == (SelectedStationView { after: old(self)@.after.push(after), ..old(self)@ }),
    {
        self.before_after.1.push(after);
    }

    /// Update the current grid position of the station.
    pub fn update_pos(&mut self, new_pos: GridNode)
        ensures
            final(self)@ == (SelectedStationView {
                station: StationView { pos: new_pos, ..old(self)@.station },
                ..old(self)@
            }),
    {
        self.station.set_pos(new_pos);
    }

    /// A getter for the current grid position of the station.
    pub fn get_pos(&self) -> (r: GridNode)
        ensures
            r == self@.station.pos,
    {
        self.station.get_pos()
    }

    /// Deselects the station and returns it.
    pub fn deselect(self) -> (r: Station)
        ensures
            r@ == self@.station,
    {
        self.station
    }

    /// If the station has been moved to a new position (a new station always
    /// has).
    pub fn has_moved(&self) -> (r: bool)
        ensures
            r == (self@.moved_from != Some(self@.station.pos)),
    {
        match self.moved_from {
            Some(from) => from != self.station.get_pos(),
            None => true,
        }
    }

    /// If the station is newly created.
    pub fn is_new(&self) -> (r: bool)
        ensures
            r == self@.moved_from is None,
    {
        self.moved_from.is_none()
    }

    /// Get the position the station is being dragged from.
    pub fn get_original_position(&self) -> (r: Option<GridNode>)
        ensures
            r == self@.moved_from,
    {
        self.moved_from
    }
}

impl Clone for SelectedStation {
    fn clone(&self) -> (r: Self)
        ensures
            r@ == self@,
    {
        SelectedStation {
            station: self.station.clone(),
            before_after: (copy_vec(&self.before_after.0), copy_vec(&self.before_after.1)),
            moved_from: self.moved_from,
        }
    }
}

impl PartialEq for SelectedStation {
    fn eq(&self, other: &SelectedStation) -> (r: bool) {
        self.station.get_id() == other.station.get_id()
    }
}

impl vstd::std_specs::cmp::PartialEqSpecImpl for SelectedStation {
    open spec fn obeys_eq_spec() -> bool {
        true
    }

    open spec fn eq_spec(&self, other: &SelectedStation) -> bool {
        self@.station.id == other@.station.id
    }
}

} // verus!
