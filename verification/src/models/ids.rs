//! Identifiers of stations, edges and lines, and the generator that hands out
//! fresh ones.
use vstd::prelude::*;

verus! {

/// An identifier for a station.
#[derive(Clone, Copy, Debug, Hash, PartialEq, Eq, Structural, PartialOrd, Ord)]
pub struct StationID(pub u64);

/// An identifier for an edge.
#[derive(Clone, Copy, Debug, Hash, PartialEq, Eq, Structural, PartialOrd, Ord)]
pub struct EdgeID(pub u64);

/// An identifier for a line.
#[derive(Clone, Copy, Debug, Hash, PartialEq, Eq, Structural, PartialOrd, Ord)]
pub struct LineID(pub u64);

impl From<u64> for StationID {
    fn from(value: u64) -> (r: Self) {
        StationID(value)
    }
}

impl vstd::std_specs::convert::FromSpecImpl<u64> for StationID {
    open spec fn obeys_from_spec() -> bool {
        true
    }

    open spec fn from_spec(v: u64) -> Self {
        StationID(v)
    }
}

impl From<StationID> for u64 {
    fn from(value: StationID) -> (r: Self) {
        value.0
    }
}

impl vstd::std_specs::convert::FromSpecImpl<StationID> for u64 {
    open spec fn obeys_from_spec() -> bool {
        true
    }

    open spec fn from_spec(v: StationID) -> Self {
        v.0
    }
}

impl From<u64> for EdgeID {
    fn from(value: u64) -> (r: Self) {
        EdgeID(value)
    }
}

impl vstd::std_specs::convert::FromSpecImpl<u64> for EdgeID {
    open spec fn obeys_from_spec() -> bool {
        true
    }

    open spec fn from_spec(v: u64) -> Self {
        EdgeID(v)
    }
}

impl From<EdgeID> for u64 {
    fn from(value: EdgeID) -> (r: Self) {
        value.0
    }
}

impl vstd::std_specs::convert::FromSpecImpl<EdgeID> for u64 {
    open spec fn obeys_from_spec() -> bool {
        true
    }

    open spec fn from_spec(v: EdgeID) -> Self {
        v.0
    }
}

impl From<u64> for LineID {
    fn from(value: u64) -> (r: Self) {
        LineID(value)
    }
}

impl vstd::std_specs::convert::FromSpecImpl<u64> for LineID {
    open spec fn obeys_from_spec() -> bool {
        true
    }

    open spec fn from_spec(v: u64) -> Self {
        LineID(v)
    }
}

impl From<LineID> for u64 {
    fn from(value: LineID) -> (r: Self) {
        value.0
    }
}

impl vstd::std_specs::convert::FromSpecImpl<LineID> for u64 {
    open spec fn obeys_from_spec() -> bool {
        true
    }

    open spec fn from_spec(v: LineID) -> Self {
        v.0
    }
}

/// The counter value that follows `c`; it wraps around to zero after the
/// largest value, as an atomic fetch-and-add does.
pub open spec fn successor(c: u64) -> u64 {
    if c == u64::MAX {
        0
    } else {
        (c + 1) as u64
    }
}

/// The counter value after `id` has been reported as taken: counters never
/// hand out an id at or below one that is already in use.
pub open spec fn counter_after_update(counter: u64, id: u64) -> u64 {
    if id >= counter {
        successor(id)
    } else {
        counter
    }
}

fn next_counter(c: u64) -> (r: u64)
    ensures
        r == successor(c),
{
    if c == u64::MAX {
        0
    } else {
        c + 1
    }
}

/// Hands out sequential identifiers for new stations, edges and lines.
#[derive(Clone, Copy, Debug)]
pub struct IDManager {
    station: u64,
    edge: u64,
    line: u64,
}

impl IDManager {
    /// The identifier the next call of [`IDManager::next_station_id`] returns.
    pub closed spec fn station_counter(self) -> u64 {
        self.station
    }

    /// The identifier the next call of [`IDManager::next_edge_id`] returns.
    pub closed spec fn edge_counter(self) -> u64 {
        self.edge
    }

    /// The identifier the next call of [`IDManager::next_line_id`] returns.
    pub closed spec fn line_counter(self) -> u64 {
        self.line
    }

    /// A generator whose first identifier of each kind is 1.
    pub fn new() -> (r: Self)
        ensures
            r.station_counter() == 1,
            r.edge_counter() == 1,
            r.line_counter() == 1,
    {
        IDManager { station: 1, edge: 1, line: 1 }
    }

    /// A generator that continues from the given counters.
    pub fn from_counters(station: u64, edge: u64, line: u64) -> (r: Self)
        ensures
            r.station_counter() == station,
            r.edge_counter() == edge,
            r.line_counter() == line,
    {
        IDManager { station, edge, line }
    }

    /// The current counters, as (station, edge, line).
    pub fn get_counters(&self) -> (r: (u64, u64, u64))
        ensures
            r == (self.station_counter(), self.edge_counter(), self.line_counter()),
    {
        (self.station, self.edge, self.line)
    }

    /// Take the next station identifier.
    pub fn next_station_id(&mut self) -> (r: StationID)
        ensures
            r.0 == old(self).station_counter(),
            final(self).station_counter() == successor(old(self).station_counter()),
            final(self).edge_counter() == old(self).edge_counter(),
            final(self).line_counter() == old(self).line_counter(),
    {
        let id = self.station;
        self.station = next_counter(id);
        StationID(id)
    }

    /// Take the next edge identifier.
    pub fn next_edge_id(&mut self) -> (r: EdgeID)
        ensures
            r.0 == old(self).edge_counter(),
            final(self).edge_counter() == successor(old(self).edge_counter()),
            final(self).station_counter() == old(self).station_counter(),
            final(self).line_counter() == old(self).line_counter(),
    {
        let id = self.edge;
        self.edge = next_counter(id);
        EdgeID(id)
    }

    /// Take the next line identifier.
    pub fn next_line_id(&mut self) -> (r: LineID)
        ensures
            r.0 == old(self).line_counter(),
            final(self).line_counter() == successor(old(self).line_counter()),
            final(self).station_counter() == old(self).station_counter(),
            final(self).edge_counter() == old(self).edge_counter(),
    {
        let id = self.line;
        self.line = next_counter(id);
        LineID(id)
    }

    /// Report a station identifier as taken, so that later generated
    /// identifiers come after it.
    pub fn update_station_id(&mut self, id: StationID)
        ensures
            final(self).station_counter() == counter_after_update(
                old(self).station_counter(),
                id.0,
            ),
            final(self).edge_counter() == old(self).edge_counter(),
            final(self).line_counter() == old(self).line_counter(),
    {
        if id.0 >= self.station {
            self.station = next_counter(id.0);
        }
    }

    /// Report an edge identifier as taken.
    pub fn update_edge_id(&mut self, id: EdgeID)
        ensures
            final(self).edge_counter() == counter_after_update(old(self).edge_counter(), id.0),
            final(self).station_counter() == old(self).station_counter(),
            final(self).line_counter() == old(self).line_counter(),
    {
        if id.0 >= self.edge {
            self.edge = next_counter(id.0);
        }
    }

    /// Report a line identifier as taken.
    pub fn update_line_id(&mut self, id: LineID)
        ensures
            final(self).line_counter() == counter_after_update(old(self).line_counter(), id.0),
            final(self).station_counter() == old(self).station_counter(),
            final(self).edge_counter() == old(self).edge_counter(),
    {
        if id.0 >= self.line {
            self.line = next_counter(id.0);
        }
    }
}

/// Two station identifiers taken one after the other differ, unless the
/// counter wrapped around in between.
pub proof fn lemma_fresh_station_ids(c: u64)
    requires
        c < u64::MAX,
    ensures
        successor(c) > c,
        successor(c) != c,
{
}

/// After an identifier has been reported as taken, the next one handed out
/// is larger than it (while the counter has not reached its maximum).
pub proof fn lemma_update_then_next_is_larger(counter: u64, id: u64)
    requires
        id < u64::MAX,
    ensures
        counter_after_update(counter, id) > id,
{
}

} // verus!
