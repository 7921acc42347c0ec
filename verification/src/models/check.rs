//! Checks that a map (one read from a file, say) is in the shape that the
//! editing operations need.
use vstd::prelude::*;

use super::edge::strictly_sorted_ids;
use super::grid_node::has_all_neighbors;
use super::ids::{
    EdgeID,
    IDManager,
    LineID,
    StationID,
};
use super::map::{
    fresh_edge_ids,
    stations_inside_grid,
    MetroMap,
    MetroMapView,
};
use super::route::line_stations_listed;

verus! {

/// The map and the identifier generator are in the shape the editing
/// operations need: every key holds what carries it, edges join stations of
/// the map, lines use edges of the map, each line uses an edge at most once
/// and visits stations of the map, stations stand inside the grid with all
/// their neighbors, and there are edge ids left for every line to be
/// rejoined around a removed station.
pub open spec fn editable(m: MetroMapView, ids: IDManager) -> bool {
    &&& m.wf()
    &&& m.edges_attached()
    &&& m.lines_valid()
    &&& forall|k: u64| #[trigger] m.lines.contains_key(k) ==> m.lines[k].edges.no_duplicates()
    &&& fresh_edge_ids(m, ids)
    &&& forall|k: u64| #[trigger]
        m.lines.contains_key(k) ==> ids.edge_counter() + m.lines.dom().len() * (m.lines[k].edges.len()
            * m.lines[k].edges.len()) < u64::MAX
    &&& stations_inside_grid(m)
    &&& line_stations_listed(m)
}

/// If no id occurs twice in `v`.
fn edge_ids_distinct(v: &[EdgeID]) -> (r: bool)
    ensures
        r == v@.no_duplicates(),
{
    let mut i: usize = 0;
    while i < v.len()
        invariant
            i <= v@.len(),
            forall|a: int, b: int| 0 <= a < b < v@.len() && a < i ==> v@[a] != v@[b],
        decreases v@.len() - i,
    {
        let mut j: usize = i + 1;
        while j < v.len()
            invariant
                i < v@.len(),
                i + 1 <= j <= v@.len(),
                forall|a: int, b: int| 0 <= a < b < v@.len() && a < i ==> v@[a] != v@[b],
                forall|b: int| i < b < j ==> v@[i as int] != v@[b],
            decreases v@.len() - j,
        {
            if v[i] == v[j] {
                return false;
            }
            j = j + 1;
        }
        i = i + 1;
    }
    true
}

/// If the line ids in `v` ascend strictly.
fn line_ids_ascend(v: &[LineID]) -> (r: bool)
    ensures
        r == strictly_sorted_ids(v@),
{
    if v.len() == 0 {
        return true;
    }
    let mut i: usize = 1;
    while i < v.len()
        invariant
            1 <= i <= v@.len(),
            forall|a: int, b: int| 0 <= a < b < i ==> v@[a].0 < v@[b].0,
        decreases v@.len() - i,
    {
        if v[i - 1].0 >= v[i].0 {
            assert(!(v@[i - 1].0 < v@[i as int].0));
            return false;
        }
        proof {
            assert forall|a: int, b: int| 0 <= a < b < i + 1 implies v@[a].0 < v@[b].0 by {
                if b == i && a < i - 1 {
                    assert(v@[a].0 < v@[i - 1].0);
                }
            }
        }
        i = i + 1;
    }
    true
}

impl MetroMap {
    /// If every station is stored under its own id and stands inside the
    /// grid with all its neighbors.
    fn check_stations(&self) -> (r: bool)
        ensures
            r == ((forall|k: u64| #[trigger] self@.stations.contains_key(k) ==> self@.stations[k].id.0 == k)
                && stations_inside_grid(self@)),
    {
        let keys = self.station_ids();
        let mut i: usize = 0;
        while i < keys.len()
            invariant
                i <= keys@.len(),
                forall|q: int| 0 <= q < keys@.len() ==> self@.stations.contains_key(#[trigger] keys@[q].0),
                forall|q: int| 0 <= q < i ==> {
                    let s = self@.stations[#[trigger] keys@[q].0];
                    s.id.0 == keys@[q].0 && has_all_neighbors(s.pos)
                },
            decreases keys@.len() - i,
        {
            assert(self@.stations.contains_key(keys@[i as int].0));
            let station = self.get_station(keys[i]).unwrap();
            let pos = station.get_pos();
            if station.get_id().0 != keys[i].0 || pos.0 == i32::MIN || pos.0 == i32::MAX || pos.1 == i32::MIN
                || pos.1 == i32::MAX {
                return false;
            }
            i = i + 1;
        }
        proof {
            assert forall|k: u64| #[trigger] self@.stations.contains_key(k) implies self@.stations[k].id.0 == k
                && has_all_neighbors(self@.stations[k].pos) by {
                assert(keys@.contains(StationID(k)));
                let q = choose|q: int| 0 <= q < keys@.len() && keys@[q] == StationID(k);
                assert(keys@[q].0 == k);
            }
        }
        true
    }

    /// If every edge is stored under its own id, has its lines in strictly
    /// ascending order, joins stations of the map, and has an id below the
    /// next one of `ids`.
    fn check_edges(&self, ids: &IDManager) -> (r: bool)
        ensures
            r == ((forall|k: u64| #[trigger] self@.edges.contains_key(k) ==> self@.edges[k].id.0 == k
                && strictly_sorted_ids(self@.edges[k].lines)) && self@.edges_attached() && fresh_edge_ids(
                self@,
                *ids,
            )),
    {
        let keys = self.edge_ids();
        let counter = ids.get_counters().1;
        let mut i: usize = 0;
        while i < keys.len()
            invariant
                i <= keys@.len(),
                counter == ids.edge_counter(),
                forall|q: int| 0 <= q < keys@.len() ==> self@.edges.contains_key(#[trigger] keys@[q].0),
                forall|q: int| 0 <= q < i ==> {
                    let e = self@.edges[#[trigger] keys@[q].0];
                    &&& e.id.0 == keys@[q].0
                    &&& strictly_sorted_ids(e.lines)
                    &&& self@.stations.contains_key(e.from.0)
                    &&& self@.stations.contains_key(e.to.0)
                    &&& keys@[q].0 < counter
                },
            decreases keys@.len() - i,
        {
            assert(self@.edges.contains_key(keys@[i as int].0));
            let edge = self.get_edge(keys[i]).unwrap();
            if edge.get_id().0 != keys[i].0 || !line_ids_ascend(edge.get_lines())
                || self.get_station(edge.get_from()).is_none() || self.get_station(edge.get_to()).is_none()
                || keys[i].0 >= counter {
                return false;
            }
            i = i + 1;
        }
        proof {
            assert forall|k: u64| #[trigger] self@.edges.contains_key(k) implies {
                let e = self@.edges[k];
                &&& e.id.0 == k
                &&& strictly_sorted_ids(e.lines)
                &&& self@.stations.contains_key(e.from.0)
                &&& self@.stations.contains_key(e.to.0)
                &&& k < counter
            } by {
                assert(keys@.contains(EdgeID(k)));
                let q = choose|q: int| 0 <= q < keys@.len() && keys@[q] == EdgeID(k);
                assert(keys@[q].0 == k);
            }
        }
        true
    }

    /// If every line is stored under its own id, uses edges of the map, each
    /// at most once, visits stations of the map, and leaves enough edge ids
    /// of `ids` to be rejoined around a removed station.
    fn check_lines(&self, ids: &IDManager) -> (r: bool)
        ensures
            r == ((forall|k: u64| #[trigger] self@.lines.contains_key(k) ==> self@.lines[k].id.0 == k)
                && self@.lines_valid() && (forall|k: u64| #[trigger]
                self@.lines.contains_key(k) ==> self@.lines[k].edges.no_duplicates()) && (forall|k: u64|
                #[trigger]
                self@.lines.contains_key(k) ==> ids.edge_counter() + self@.lines.dom().len() * (
                self@.lines[k].edges.len() * self@.lines[k].edges.len()) < u64::MAX)
                && line_stations_listed(self@)),
    {
        let keys = self.line_ids();
        proof {
            let ks = keys@.map_values(|l: LineID| l.0);
            assert forall|a: int, b: int| 0 <= a < b < ks.len() implies ks[a] != ks[b] by {
                assert(keys@[a] != keys@[b]);
            }
            assert forall|k: u64| ks.to_set().contains(k) == self@.lines.dom().contains(k) by {
                if self@.lines.contains_key(k) {
                    assert(keys@.contains(LineID(k)));
                    let q = choose|q: int| 0 <= q < keys@.len() && keys@[q] == LineID(k);
                    assert(ks[q] == k);
                }
                if ks.to_set().contains(k) {
                    assert(ks.contains(k));
                    let q = choose|q: int| 0 <= q < ks.len() && #[trigger] ks[q] == k;
                    assert(self@.lines.contains_key(keys@[q].0));
                }
            }
            ks.unique_seq_to_set();
            assert(ks.to_set() =~= self@.lines.dom());
        }
        let count = keys.len() as u128;
        let counter = ids.get_counters().1 as u128;
        let mut i: usize = 0;
        while i < keys.len()
            invariant
                i <= keys@.len(),
                count == keys@.len(),
                count == self@.lines.dom().len(),
                counter == ids.edge_counter(),
                forall|q: int| 0 <= q < keys@.len() ==> self@.lines.contains_key(#[trigger] keys@[q].0),
                forall|q: int| 0 <= q < i ==> {
                    let l = self@.lines[#[trigger] keys@[q].0];
                    &&& l.id.0 == keys@[q].0
                    &&& forall|t: int| 0 <= t < l.edges.len() ==> self@.edges.contains_key(#[trigger] l.edges[t].0)
                    &&& l.edges.no_duplicates()
                    &&& counter + count * (l.edges.len() * l.edges.len()) < u64::MAX
                    &&& forall|t: int| 0 <= t < l.stations.len() ==> self@.stations.contains_key(#[trigger] l.stations[t].0)
                },
            decreases keys@.len() - i,
        {
            let ghost k = keys@[i as int].0;
            assert(self@.lines.contains_key(k));
            let line = self.get_line(keys[i]).unwrap();
            if line.get_id().0 != keys[i].0 {
                return false;
            }
            let edges = line.get_edges();
            let mut t: usize = 0;
            while t < edges.len()
                invariant
                    t <= edges@.len(),
                    self@.lines.contains_key(k),
                    edges@ == self@.lines[k].edges,
                    forall|u: int| 0 <= u < t ==> self@.edges.contains_key(#[trigger] edges@[u].0),
                decreases edges@.len() - t,
            {
                if self.get_edge(edges[t]).is_none() {
                    assert(!self@.edges.contains_key(self@.lines[k].edges[t as int].0));
                    return false;
                }
                t = t + 1;
            }
            if !edge_ids_distinct(edges) {
                return false;
            }
            let n = edges.len() as u128;
            if n > 0xffff_ffff {
                proof {
                    assert(n * n >= 0x1_0000_0000 * 0x1_0000_0000) by (nonlinear_arith)
                        requires
                            n > 0xffff_ffff,
                    ;
                    assert(count >= 1) by {
                        assert(self@.lines.dom().contains(k));
                    }
                    assert(count * (n * n) >= n * n) by (nonlinear_arith)
                        requires
                            count >= 1,
                            n * n >= 0,
                    ;
                }
                return false;
            }
            assert(n * n <= 0xffff_fffe_0000_0001) by (nonlinear_arith)
                requires
                    n <= 0xffff_ffff,
            ;
            let sq = n * n;
            match count.checked_mul(sq) {
                Some(need) => {
                    if need >= u64::MAX as u128 - counter {
                        return false;
                    }
                },
                None => {
                    return false;
                },
            }
            let stations = line.get_stations();
            let mut t: usize = 0;
            while t < stations.len()
                invariant
                    t <= stations@.len(),
                    self@.lines.contains_key(k),
                    stations@ == self@.lines[k].stations,
                    forall|u: int| 0 <= u < t ==> self@.stations.contains_key(#[trigger] stations@[u].0),
                decreases stations@.len() - t,
            {
                if self.get_station(stations[t]).is_none() {
                    assert(!self@.stations.contains_key(self@.lines[k].stations[t as int].0));
                    return false;
                }
                t = t + 1;
            }
            i = i + 1;
        }
        proof {
            assert forall|k: u64| #[trigger] self@.lines.contains_key(k) implies {
                let l = self@.lines[k];
                &&& l.id.0 == k
                &&& forall|t: int| 0 <= t < l.edges.len() ==> self@.edges.contains_key(#[trigger] l.edges[t].0)
                &&& l.edges.no_duplicates()
                &&& counter + count * (l.edges.len() * l.edges.len()) < u64::MAX
                &&& forall|t: int| 0 <= t < l.stations.len() ==> self@.stations.contains_key(#[trigger] l.stations[t].0)
            } by {
                assert(keys@.contains(LineID(k)));
                let q = choose|q: int| 0 <= q < keys@.len() && keys@[q] == LineID(k);
                assert(keys@[q].0 == k);
            }
        }
        true
    }

    /// If every key of the map holds what carries it, and the lines of every
    /// edge ascend strictly (see [`MetroMapView::wf`]).
    pub fn check_wf(&self) -> (r: bool)
        ensures
            r == self@.wf(),
    {
        self.check_stations_keyed() && self.check_lines_keyed() && self.check_edges_keyed()
    }

    /// If every station is stored under its own id.
    fn check_stations_keyed(&self) -> (r: bool)
        ensures
            r == (forall|k: u64| #[trigger] self@.stations.contains_key(k) ==> self@.stations[k].id.0 == k),
    {
        let keys = self.station_ids();
        let mut i: usize = 0;
        while i < keys.len()
            invariant
                i <= keys@.len(),
                forall|q: int| 0 <= q < keys@.len() ==> self@.stations.contains_key(#[trigger] keys@[q].0),
                forall|q: int| 0 <= q < i ==> self@.stations[#[trigger] keys@[q].0].id.0 == keys@[q].0,
            decreases keys@.len() - i,
        {
            assert(self@.stations.contains_key(keys@[i as int].0));
            if self.get_station(keys[i]).unwrap().get_id().0 != keys[i].0 {
                return false;
            }
            i = i + 1;
        }
        proof {
            assert forall|k: u64| #[trigger] self@.stations.contains_key(k) implies self@.stations[k].id.0 == k by {
                assert(keys@.contains(StationID(k)));
                let q = choose|q: int| 0 <= q < keys@.len() && keys@[q] == StationID(k);
                assert(keys@[q].0 == k);
            }
        }
        true
    }

    /// If every line is stored under its own id.
    fn check_lines_keyed(&self) -> (r: bool)
        ensures
            r == (forall|k: u64| #[trigger] self@.lines.contains_key(k) ==> self@.lines[k].id.0 == k),
    {
        let keys = self.line_ids();
        let mut i: usize = 0;
        while i < keys.len()
            invariant
                i <= keys@.len(),
                forall|q: int| 0 <= q < keys@.len() ==> self@.lines.contains_key(#[trigger] keys@[q].0),
                forall|q: int| 0 <= q < i ==> self@.lines[#[trigger] keys@[q].0].id.0 == keys@[q].0,
            decreases keys@.len() - i,
        {
            assert(self@.lines.contains_key(keys@[i as int].0));
            if self.get_line(keys[i]).unwrap().get_id().0 != keys[i].0 {
                return false;
            }
            i = i + 1;
        }
        proof {
            assert forall|k: u64| #[trigger] self@.lines.contains_key(k) implies self@.lines[k].id.0 == k by {
                assert(keys@.contains(LineID(k)));
                let q = choose|q: int| 0 <= q < keys@.len() && keys@[q] == LineID(k);
                assert(keys@[q].0 == k);
            }
        }
        true
    }

    /// If every edge is stored under its own id and has its lines in
    /// strictly ascending order.
    fn check_edges_keyed(&self) -> (r: bool)
        ensures
            r == (forall|k: u64| #[trigger] self@.edges.contains_key(k) ==> self@.edges[k].id.0 == k
                && strictly_sorted_ids(self@.edges[k].lines)),
    {
        let keys = self.edge_ids();
        let mut i: usize = 0;
        while i < keys.len()
            invariant
                i <= keys@.len(),
                forall|q: int| 0 <= q < keys@.len() ==> self@.edges.contains_key(#[trigger] keys@[q].0),
                forall|q: int| 0 <= q < i ==> self@.edges[#[trigger] keys@[q].0].id.0 == keys@[q].0
                    && strictly_sorted_ids(self@.edges[keys@[q].0].lines),
            decreases keys@.len() - i,
        {
            assert(self@.edges.contains_key(keys@[i as int].0));
            let edge = self.get_edge(keys[i]).unwrap();
            if edge.get_id().0 != keys[i].0 || !line_ids_ascend(edge.get_lines()) {
                return false;
            }
            i = i + 1;
        }
        proof {
            assert forall|k: u64| #[trigger] self@.edges.contains_key(k) implies self@.edges[k].id.0 == k
                && strictly_sorted_ids(self@.edges[k].lines) by {
                assert(keys@.contains(EdgeID(k)));
                let q = choose|q: int| 0 <= q < keys@.len() && keys@[q] == EdgeID(k);
                assert(keys@[q].0 == k);
            }
        }
        true
    }

    /// If the map and the identifier generator are in the shape the editing
    /// operations need (see [`editable`]).
    pub fn check_editable(&self, ids: &IDManager) -> (r: bool)
        ensures
            r == editable(self@, *ids),
    {
        self.check_stations() && self.check_edges(ids) && self.check_lines(ids)
    }
}

} // verus!
