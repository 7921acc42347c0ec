//! Contains the [`MetroMap`] struct and its methods.
use std::collections::HashMap;

use vstd::prelude::*;

use super::edge::{
    insertion_point,
    lines_with,
    lines_without,
    sorted_ids,
    strictly_sorted_ids,
    Edge,
    EdgeView,
};
use super::grid_node::{
    has_all_neighbors,
    neighbors_of,
    GridNode,
};
use super::ids::{
    successor,
    IDManager,
    EdgeID,
    LineID,
    StationID,
};
use super::line::{
    lemma_stations_after_same,
    rejoined_stations,
    same_but_lines,
    touches,
    edges_avoiding,
    ends_around,
    ordered_pairs,
    push_all_once,
    lemma_ends_around_same,
    lemma_push_all_once_contains,
    line_rejoined,
    line_edges_in,
    Line,
    LineView,
};
use crate::error::Error;
use super::station::{
    seq_without,
    Station,
    StationView,
};

verus! {

broadcast use vstd::std_specs::hash::group_hash_axioms;

/// The keys of a hash map, each once.
fn keys_of<V>(m: &HashMap<u64, V>) -> (r: Vec<u64>)
    ensures
        r@.no_duplicates(),
        r@.to_set() == m@.dom(),
        forall|i: int| 0 <= i < r@.len() ==> m@.contains_key(#[trigger] r@[i]),
{
    let mut out: Vec<u64> = Vec::new();
    let ghost n = m@.dom().len();
    for k in it: m.keys()
        invariant
            out@.len() == it.index(),
            forall|j: int| 0 <= j < out@.len() ==> out@[j] == *it.seq()[j],
            it.seq().no_duplicates(),
            it.seq().unref().to_set() == m@.dom(),
            it.seq().len() == n,
            n == m@.dom().len(),
            out@.no_duplicates(),
            forall|j: int| 0 <= j < out@.len() ==> m@.contains_key(#[trigger] out@[j]),
    {
        proof {
            let j = it.index() as int;
            assert(it.seq().unref().to_set().contains(*k)) by {
                assert(it.seq().unref()[j] == *k);
            }
            assert forall|a: int| 0 <= a < out@.len() implies out@[a] != *k by {
                assert(it.seq()[a] != it.seq()[j]);
            }
        }
        out.push(*k);
    }
    proof {
        assert(out@.len() == n);
        out@.unique_seq_to_set();
        assert(out@.to_set().subset_of(m@.dom())) by {
            assert forall|x: u64| out@.to_set().contains(x) implies m@.dom().contains(x) by {
                let j = choose|j: int| 0 <= j < out@.len() && #[trigger] out@[j] == x;
            }
        }
        vstd::set_lib::lemma_subset_equality(out@.to_set(), m@.dom());
    }
    out
}

/// A mutable borrow of the value stored under `k`, if there is one.
///
/// Calls `std::collections::HashMap::get_mut`, for which vstd states no
/// contract that speaks of the map after the borrow ends. The contract
/// claims what its documentation says: `None` exactly where the key is
/// absent (and the map is unchanged), else the stored value, and what is
/// written through the borrow is what the map then holds under the key. It
/// is not proved here.
#[verifier::external_body]
fn map_get_mut<V>(m: &mut HashMap<u64, V>, k: u64) -> (r: Option<&mut V>)
    ensures
        match r {
            Some(v) => {
                &&& old(m)@.contains_key(k)
                &&& *v == old(m)@[k]
                &&& final(m)@ == old(m)@.insert(k, *final(v))
            },
            None => !old(m)@.contains_key(k) && final(m)@ == old(m)@,
        },
{
    m.get_mut(&k)
}

/// What a [`MetroMap`] holds: its stations, lines and edges by the number of
/// their identifier.
#[verifier::ext_equal]
pub struct MetroMapView {
    pub stations: Map<u64, StationView>,
    pub lines: Map<u64, LineView>,
    pub edges: Map<u64, EdgeView>,
}

/// If the edge joins the two stations, in either direction.
pub open spec fn connects(e: EdgeView, a: StationID, b: StationID) -> bool {
    (e.from == a && e.to == b) || (e.from == b && e.to == a)
}

/// `s` with `x` added at its end unless it already holds it.
pub open spec fn push_once<A>(s: Seq<A>, x: A) -> Seq<A> {
    if s.contains(x) {
        s
    } else {
        s.push(x)
    }
}

impl MetroMapView {
    /// Every station, line and edge is stored under its own identifier, and
    /// the lines of every edge are in strictly ascending order.
    pub open spec fn wf(self) -> bool {
        &&& forall|k: u64| #[trigger] self.stations.contains_key(k) ==> self.stations[k].id.0 == k
        &&& forall|k: u64| #[trigger] self.lines.contains_key(k) ==> self.lines[k].id.0 == k
        &&& forall|k: u64| #[trigger] self.edges.contains_key(k) ==> self.edges[k].id.0 == k
        &&& forall|k: u64| #[trigger]
            self.edges.contains_key(k) ==> strictly_sorted_ids(self.edges[k].lines)
    }

    /// Both ends of every edge are stations of the map.
    pub open spec fn edges_attached(self) -> bool {
        forall|k: u64| #[trigger]
            self.edges.contains_key(k) ==> self.stations.contains_key(self.edges[k].from.0)
                && self.stations.contains_key(self.edges[k].to.0)
    }

    /// Every edge that a line of the map uses is an edge of the map.
    pub open spec fn lines_valid(self) -> bool {
        forall|k: u64, i: int|
            #![trigger self.lines[k].edges[i]]
            self.lines.contains_key(k) && 0 <= i < self.lines[k].edges.len()
                ==> self.edges.contains_key(self.lines[k].edges[i].0)
    }

    /// If some edge of the map joins the two stations.
    pub open spec fn has_edge_between(self, a: StationID, b: StationID) -> bool {
        exists|k: u64| #[trigger] self.edges.contains_key(k) && connects(self.edges[k], a, b)
    }
}

/// The identifier generator hands out edge ids above every edge id of the
/// map.
pub open spec fn fresh_edge_ids(m: MetroMapView, ids: IDManager) -> bool {
    forall|k: u64| #[trigger] m.edges.contains_key(k) ==> k < ids.edge_counter()
}

/// The stations of `b` are those of `a`, each as it was but for the edges
/// it lists.
pub open spec fn station_places_kept(a: MetroMapView, b: MetroMapView) -> bool {
    &&& b.stations.dom() == a.stations.dom()
    &&& forall|k: u64| #[trigger]
        a.stations.contains_key(k) ==> b.stations[k] == StationView { edges: b.stations[k].edges, ..a.stations[k] }
}

/// The map after `station` has been added (or has replaced the station with
/// its id).
pub open spec fn with_station(m: MetroMapView, station: StationView) -> MetroMapView {
    MetroMapView { stations: m.stations.insert(station.id.0, station), ..m }
}

/// The station `s` after the edge `e` has been attached to it.
pub open spec fn station_with_edge(s: StationView, e: EdgeID) -> StationView {
    StationView { edges: push_once(s.edges, e), ..s }
}

/// The station `s` after the edge `e` has been detached from it.
pub open spec fn station_without_edge(s: StationView, e: EdgeID) -> StationView {
    StationView { edges: seq_without(s.edges, e), ..s }
}

/// The map after the edge has been added: both its ends list it, and it is
/// stored under its id.
pub open spec fn with_edge(m: MetroMapView, edge: EdgeView) -> MetroMapView {
    let s1 = m.stations.insert(edge.from.0, station_with_edge(m.stations[edge.from.0], edge.id));
    let s2 = s1.insert(edge.to.0, station_with_edge(s1[edge.to.0], edge.id));
    MetroMapView { stations: s2, edges: m.edges.insert(edge.id.0, edge), ..m }
}

/// The map after the edge with number `id` has been removed: it is gone, its
/// ends no longer list it and no line uses it.
pub open spec fn without_edge(m: MetroMapView, id: u64) -> MetroMapView {
    if !m.edges.contains_key(id) {
        m
    } else {
        let e = m.edges[id];
        let s1 = if m.stations.contains_key(e.from.0) {
            m.stations.insert(e.from.0, station_without_edge(m.stations[e.from.0], EdgeID(id)))
        } else {
            m.stations
        };
        let s2 = if s1.contains_key(e.to.0) {
            s1.insert(e.to.0, station_without_edge(s1[e.to.0], EdgeID(id)))
        } else {
            s1
        };
        MetroMapView {
            stations: s2,
            lines: m.lines.map_values(
                |l: LineView| LineView { edges: seq_without(l.edges, EdgeID(id)), ..l },
            ),
            edges: m.edges.remove(id),
        }
    }
}

/// The lines of the map other than `except` that list the edge.
pub open spec fn lines_using(m: MetroMapView, id: EdgeID, except: LineID) -> Set<LineID> {
    Set::new(
        |l: LineID| m.lines.contains_key(l.0) && l != except && m.lines[l.0].edges.contains(id),
    )
}

/// What taking the edge `id` off the line `from` does to the map `m0`,
/// giving `m`: the edge leaves the map unless another line uses it, in which
/// case exactly those lines use it; every edge keeps its ends; every other
/// edge and every other line stays as it was.
#[verifier::opaque]
pub open spec fn edge_taken_off(m0: MetroMapView, m: MetroMapView, id: EdgeID, from: LineID) -> bool {
    let users = lines_using(m0, id, from);
    &&& users.len() == 0 ==> !m.edges.contains_key(id.0)
    &&& users.len() != 0 && m0.edges.contains_key(id.0) ==> m.edges.contains_key(id.0)
        && m.edges[id.0].lines.to_set() == users
    &&& forall|k: u64| #[trigger] m.edges.contains_key(k) ==> m0.edges.contains_key(k)
        && m.edges[k].from == m0.edges[k].from && m.edges[k].to == m0.edges[k].to
    &&& forall|k: u64| k != id.0 && #[trigger] m0.edges.contains_key(k) ==> m.edges.contains_key(k)
        && m.edges[k] == m0.edges[k]
    &&& m.lines.dom() == m0.lines.dom()
    &&& forall|k: u64| k != from.0 && #[trigger] m0.lines.contains_key(k) ==> m.lines[k] == m0.lines[k]
}

/// Taking the station `id` off the line at position `i` of `keys` (which
/// turned `before` into `mid` and the line `l0` into `lv`) and putting the
/// line back on the map (`f`) keeps what is known of the lines done before
/// it and of those still to do.
proof fn lemma_station_removed_step(
    m0: MetroMapView,
    before: MetroMapView,
    mid: MetroMapView,
    f: MetroMapView,
    keys: Seq<LineID>,
    i: int,
    id: StationID,
    l0: LineView,
    lv: LineView,
)
    requires
        0 <= i < keys.len(),
        keys.no_duplicates(),
        forall|q: int| 0 <= q < keys.len() ==> m0.lines.contains_key(#[trigger] keys[q].0),
        m0.wf(),
        m0.lines_valid(),
        l0 == m0.lines[keys[i].0],
        before.lines.dom().finite(),
        before.lines.dom() == m0.lines.dom(),
        forall|q: int| i <= q < keys.len() ==> before.lines[#[trigger] keys[q].0] == m0.lines[keys[q].0],
        forall|q: int| 0 <= q < i ==> line_rejoined(m0, before, #[trigger] keys[q].0, id),
        forall|q: int, t: int|
            #![trigger m0.lines[keys[q].0].edges[t]]
            i <= q < keys.len() && 0 <= t < m0.lines[keys[q].0].edges.len() ==> before.edges.contains_key(
                m0.lines[keys[q].0].edges[t].0,
            ) && before.edges[m0.lines[keys[q].0].edges[t].0].from == m0.edges[m0.lines[keys[q].0].edges[t].0].from
                && before.edges[m0.lines[keys[q].0].edges[t].0].to == m0.edges[m0.lines[keys[q].0].edges[t].0].to,
        forall|s: StationID|
            #![trigger lv.stations.contains(s)]
            lv.stations.contains(s) ==> l0.stations.remove_value(id).contains(s) || ends_around(before, l0.edges, id).contains(s),
        exists|new: Seq<EdgeID>|
            #![trigger push_all_once(edges_avoiding(before, l0.edges, id), new)]
            {
                let pairs = ordered_pairs(ends_around(before, l0.edges, id));
                &&& new.len() == pairs.len()
                &&& lv.edges == push_all_once(edges_avoiding(before, l0.edges, id), new)
                &&& lv.stations == rejoined_stations(l0.stations.remove_value(id), edges_avoiding(before, l0.edges, id), new, mid)
                &&& forall|j: int|
                    0 <= j < new.len() ==> mid.edges.contains_key(#[trigger] new[j].0) && connects(
                        mid.edges[new[j].0],
                        pairs[j].0,
                        pairs[j].1,
                    )
            },
        forall|k: u64|
            #![trigger before.edges.contains_key(k)]
            before.edges.contains_key(k) && lines_using(before, EdgeID(k), l0.id).len() != 0 ==> mid.edges.contains_key(k)
                && mid.edges[k].from == before.edges[k].from && mid.edges[k].to == before.edges[k].to,
        mid.lines.dom() == before.lines.dom(),
        forall|k: u64| k != l0.id.0 && #[trigger] before.lines.contains_key(k) ==> mid.lines[k] == before.lines[k],
        lv.id == l0.id,
        f == with_line(mid, lv),
    ensures
        forall|q: int| 0 <= q < i + 1 ==> line_rejoined(m0, f, #[trigger] keys[q].0, id),
        forall|q: int, t: int|
            #![trigger m0.lines[keys[q].0].edges[t]]
            i + 1 <= q < keys.len() && 0 <= t < m0.lines[keys[q].0].edges.len() ==> f.edges.contains_key(
                m0.lines[keys[q].0].edges[t].0,
            ) && f.edges[m0.lines[keys[q].0].edges[t].0].from == m0.edges[m0.lines[keys[q].0].edges[t].0].from
                && f.edges[m0.lines[keys[q].0].edges[t].0].to == m0.edges[m0.lines[keys[q].0].edges[t].0].to,
{
    let k = keys[i].0;
    assert(l0.id == LineID(k));
    // the line's own edges had the ends they have in `m0`
    assert forall|t: int| 0 <= t < l0.edges.len() implies before.edges.contains_key(#[trigger] l0.edges[t].0) && m0.edges.contains_key(l0.edges[t].0)
        && before.edges[l0.edges[t].0].from == m0.edges[l0.edges[t].0].from && before.edges[l0.edges[t].0].to == m0.edges[l0.edges[t].0].to by {
        assert(m0.lines[keys[i].0].edges[t] == l0.edges[t]);
        assert(before.edges.contains_key(m0.lines[keys[i].0].edges[t].0));
        assert(m0.edges.contains_key(m0.lines[keys[i].0].edges[t].0));
    }
    lemma_ends_around_same(before, m0, l0.edges, id);
    // an edge that another line uses keeps its ends
    assert forall|k2: u64, e: EdgeID| before.lines.contains_key(k2) && k2 != k && #[trigger] before.lines[k2].edges.contains(e)
        && before.edges.contains_key(e.0) implies f.edges.contains_key(e.0) && f.edges[e.0].from == before.edges[e.0].from
        && f.edges[e.0].to == before.edges[e.0].to by {
        lemma_edge_in_use(before, e, l0.id, k2);
        assert(mid.edges.contains_key(e.0));
    }
    assert forall|q: int| 0 <= q < i + 1 implies line_rejoined(m0, f, #[trigger] keys[q].0, id) by {
        let kq = keys[q].0;
        let l = m0.lines[kq];
        let pairs = ordered_pairs(ends_around(m0, l.edges, id));
        if q == i {
            let new = choose|new: Seq<EdgeID>|
                #![trigger push_all_once(edges_avoiding(before, l0.edges, id), new)]
                {
                    let pairs = ordered_pairs(ends_around(before, l0.edges, id));
                    &&& new.len() == pairs.len()
                    &&& lv.edges == push_all_once(edges_avoiding(before, l0.edges, id), new)
                    &&& lv.stations == rejoined_stations(l0.stations.remove_value(id), edges_avoiding(before, l0.edges, id), new, mid)
                    &&& forall|j: int|
                        0 <= j < new.len() ==> mid.edges.contains_key(#[trigger] new[j].0) && connects(
                            mid.edges[new[j].0],
                            pairs[j].0,
                            pairs[j].1,
                        )
                };
            assert(f.lines[kq] == lv);
            assert forall|j: int| 0 <= j < new.len() implies f.edges.contains_key(#[trigger] new[j].0) && connects(
                f.edges[new[j].0], pairs[j].0, pairs[j].1) by {
                assert(mid.edges.contains_key(new[j].0));
            }
            assert(f.lines[kq].edges == push_all_once(edges_avoiding(m0, l.edges, id), new));
            lemma_stations_after_same(l.stations.remove_value(id), edges_avoiding(m0, l.edges, id), new, mid, f);
        } else {
            assert(keys[q] != keys[i]);
            assert(line_rejoined(m0, before, kq, id));
            assert(f.lines[kq] == mid.lines[kq]);
            assert(mid.lines[kq] == before.lines[kq]);
            let new = choose|new: Seq<EdgeID>|
                #![trigger push_all_once(edges_avoiding(m0, l.edges, id), new)]
                {
                    &&& new.len() == pairs.len()
                    &&& before.lines[kq].edges == push_all_once(edges_avoiding(m0, l.edges, id), new)
                    &&& before.lines[kq].stations == rejoined_stations(l.stations.remove_value(id), edges_avoiding(m0, l.edges, id), new, before)
                    &&& forall|j: int|
                        0 <= j < new.len() ==> before.edges.contains_key(#[trigger] new[j].0) && connects(
                            before.edges[new[j].0],
                            pairs[j].0,
                            pairs[j].1,
                        )
                };
            assert forall|j: int| 0 <= j < new.len() implies f.edges.contains_key(#[trigger] new[j].0) && connects(
                f.edges[new[j].0], pairs[j].0, pairs[j].1) && before.edges.contains_key(new[j].0)
                && f.edges[new[j].0].from == before.edges[new[j].0].from && f.edges[new[j].0].to == before.edges[new[j].0].to by {
                lemma_push_all_once_contains(edges_avoiding(m0, l.edges, id), new, j);
                assert(before.lines.contains_key(kq));
                assert(before.lines[kq].edges.contains(new[j]));
                assert(before.edges.contains_key(new[j].0));
            }
            lemma_stations_after_same(l.stations.remove_value(id), edges_avoiding(m0, l.edges, id), new, before, f);
        }
    }
    assert forall|q: int, t: int|
        #![trigger m0.lines[keys[q].0].edges[t]]
        i + 1 <= q < keys.len() && 0 <= t < m0.lines[keys[q].0].edges.len() implies f.edges.contains_key(
            m0.lines[keys[q].0].edges[t].0,
        ) && f.edges[m0.lines[keys[q].0].edges[t].0].from == m0.edges[m0.lines[keys[q].0].edges[t].0].from
            && f.edges[m0.lines[keys[q].0].edges[t].0].to == m0.edges[m0.lines[keys[q].0].edges[t].0].to by {
        let kq = keys[q].0;
        let e = m0.lines[kq].edges[t];
        assert(keys[q] != keys[i]);
        assert(before.lines[kq] == m0.lines[kq]);
        assert(before.lines[kq].edges[t] == e);
        assert(before.lines.contains_key(kq));
        assert(before.edges.contains_key(e.0));
        assert(kq != k);
        assert(before.lines[kq].edges.contains(e));
    }
}

/// What [`line_rejoined`] says of a map holds of any map with the same
/// lines and edges.
pub proof fn lemma_rejoined_same_edges(m0: MetroMapView, a: MetroMapView, b: MetroMapView, k: u64, id: StationID)
    requires
        line_rejoined(m0, a, k, id),
        a.lines == b.lines,
        a.edges == b.edges,
    ensures
        line_rejoined(m0, b, k, id),
{
    let l = m0.lines[k];
    let pairs = ordered_pairs(ends_around(m0, l.edges, id));
    let new = choose|new: Seq<EdgeID>|
        #![trigger push_all_once(edges_avoiding(m0, l.edges, id), new)]
        {
            &&& new.len() == pairs.len()
            &&& a.lines[k].edges == push_all_once(edges_avoiding(m0, l.edges, id), new)
            &&& a.lines[k].stations == rejoined_stations(l.stations.remove_value(id), edges_avoiding(m0, l.edges, id), new, a)
            &&& forall|j: int|
                0 <= j < new.len() ==> a.edges.contains_key(#[trigger] new[j].0) && connects(
                    a.edges[new[j].0],
                    pairs[j].0,
                    pairs[j].1,
                )
        };
    lemma_stations_after_same(l.stations.remove_value(id), edges_avoiding(m0, l.edges, id), new, a, b);
}

/// A map holds finitely many lines.
pub proof fn lemma_finitely_many_lines(m: &MetroMap)
    ensures
        m@.lines.dom().finite(),
{
    broadcast use vstd::std_specs::hash::axiom_hashmap_view_finite_dom;
    assert(m@.lines.dom() =~= m.lines@.dom());
}

/// An edge that a line of the map other than `except` uses has users
/// besides `except`.
pub proof fn lemma_edge_in_use(m: MetroMapView, id: EdgeID, except: LineID, l: u64)
    requires
        m.lines.dom().finite(),
        m.lines.contains_key(l),
        LineID(l) != except,
        m.lines[l].edges.contains(id),
    ensures
        lines_using(m, id, except).contains(LineID(l)),
        lines_using(m, id, except).len() != 0,
{
    let users = lines_using(m, id, except);
    let f = |k: u64| LineID(k);
    let img = m.lines.dom().map(f);
    m.lines.dom().lemma_map_finite(f);
    assert forall|x: LineID| users.contains(x) implies img.contains(x) by {
        assert(m.lines.dom().contains(x.0) && f(x.0) == x);
    }
    vstd::set_lib::lemma_len_subset(users, img);
    assert(users.contains(LineID(l)));
}

/// The index of the first of the given edges, at or after `i`, that the
/// map does not have; the number of given edges if it has them all.
pub open spec fn first_missing(m: MetroMapView, us: Seq<EdgeView>, i: int) -> int
    decreases us.len() - i,
{
    if i < 0 || i >= us.len() {
        us.len() as int
    } else if !m.edges.contains_key(us[i].id.0) {
        i
    } else {
        first_missing(m, us, i + 1)
    }
}

/// The map after the nodes of each of its edges that occurs in `us` have
/// been replaced by those of the edge in `us`, one after the other.
pub open spec fn nodes_updated(m: MetroMapView, us: Seq<EdgeView>) -> MetroMapView
    decreases us.len(),
{
    if us.len() == 0 {
        m
    } else {
        let prev = nodes_updated(m, us.drop_last());
        let u = us.last();
        if prev.edges.contains_key(u.id.0) {
            MetroMapView {
                edges: prev.edges.insert(u.id.0, EdgeView { nodes: u.nodes, ..prev.edges[u.id.0] }),
                ..prev
            }
        } else {
            prev
        }
    }
}

/// The map after the line has been added: it is stored under its id, and
/// every edge of the map that it uses is marked as used by it.
pub open spec fn with_line(m: MetroMapView, line: LineView) -> MetroMapView {
    MetroMapView {
        lines: m.lines.insert(line.id.0, line),
        edges: Map::new(
            |k: u64| m.edges.contains_key(k),
            |k: u64|
                if line.edges.contains(EdgeID(k)) {
                    EdgeView { lines: lines_with(m.edges[k].lines, line.id), ..m.edges[k] }
                } else {
                    m.edges[k]
                },
        ),
        ..m
    }
}

/// What a new line with the given id, and nothing else, holds.
pub open spec fn empty_line_view(id: LineID) -> LineView {
    LineView {
        id,
        name: Seq::empty(),
        color: (0u8, 0u8, 0u8),
        stations: Seq::empty(),
        edges: Seq::empty(),
    }
}

/// `s` without every edge whose number is in `d`, the rest kept in order.
pub open spec fn without_all(s: Seq<EdgeID>, d: Set<u64>) -> Seq<EdgeID>
    decreases s.len(),
{
    if s.len() == 0 {
        s
    } else if d.contains(s.last().0) {
        without_all(s.drop_last(), d)
    } else {
        without_all(s.drop_last(), d).push(s.last())
    }
}

proof fn lemma_without_all_step(s: Seq<EdgeID>, d: Set<u64>, k: u64)
    ensures
        seq_without(without_all(s, d), EdgeID(k)) == without_all(s, d.insert(k)),
    decreases s.len(),
{
    if s.len() > 0 {
        lemma_without_all_step(s.drop_last(), d, k);
        let w = without_all(s.drop_last(), d);
        if !d.contains(s.last().0) {
            assert(without_all(s, d) == w.push(s.last()));
            assert(w.push(s.last()).drop_last() =~= w);
        }
    }
}

proof fn lemma_without_all_member(s: Seq<EdgeID>, d: Set<u64>, y: EdgeID)
    requires
        without_all(s, d).contains(y),
    ensures
        s.contains(y),
        !d.contains(y.0),
    decreases s.len(),
{
    if s.len() > 0 {
        let w = without_all(s.drop_last(), d);
        if d.contains(s.last().0) {
            lemma_without_all_member(s.drop_last(), d, y);
        } else {
            lemma_push_contains(w, s.last(), y);
            if w.contains(y) {
                lemma_without_all_member(s.drop_last(), d, y);
            }
        }
        if s.drop_last().contains(y) {
            let q = choose|q: int| 0 <= q < s.drop_last().len() && #[trigger] s.drop_last()[q] == y;
            assert(s[q] == y);
        }
        if y == s.last() {
            assert(s[s.len() - 1] == y);
        }
    }
}

proof fn lemma_without_all_empty(s: Seq<EdgeID>)
    ensures
        without_all(s, Set::empty()) == s,
    decreases s.len(),
{
    if s.len() > 0 {
        lemma_without_all_empty(s.drop_last());
        assert(s.drop_last().push(s.last()) =~= s);
    }
}

/// The edges in `d` that have the station with number `k` as an end.
pub open spec fn touching(m: MetroMapView, d: Set<u64>, k: u64) -> Set<u64> {
    Set::new(|e: u64| d.contains(e) && (m.edges[e].from.0 == k || m.edges[e].to.0 == k))
}

/// The edges among `p` that are left without lines once the line `line`
/// is taken off them.
pub open spec fn emptied_edges(m: MetroMapView, line: LineID, p: Seq<EdgeID>) -> Set<u64> {
    Set::new(
        |k: u64|
            m.edges.contains_key(k) && p.contains(EdgeID(k)) && lines_without(
                m.edges[k].lines,
                line,
            ).len() == 0,
    )
}

/// The map `m` after the line `line` has been taken off each edge in `p`,
/// and every edge left without lines by that has been removed.
pub open spec fn line_taken_off(m: MetroMapView, line: LineID, p: Seq<EdgeID>) -> MetroMapView {
    let d = emptied_edges(m, line, p);
    MetroMapView {
        stations: Map::new(
            |k: u64| m.stations.contains_key(k),
            |k: u64|
                StationView {
                    edges: without_all(m.stations[k].edges, touching(m, d, k)),
                    ..m.stations[k]
                },
        ),
        lines: Map::new(
            |k: u64| m.lines.contains_key(k),
            |k: u64| LineView { edges: without_all(m.lines[k].edges, d), ..m.lines[k] },
        ),
        edges: Map::new(
            |k: u64| m.edges.contains_key(k) && !d.contains(k),
            |k: u64|
                if p.contains(EdgeID(k)) {
                    EdgeView { lines: lines_without(m.edges[k].lines, line), ..m.edges[k] }
                } else {
                    m.edges[k]
                },
        ),
    }
}

/// The map after the line with number `id` has been removed: the line is
/// gone, no edge is used by it any more, and every edge it used that is no
/// longer used by any line has been removed.
pub open spec fn without_line(m: MetroMapView, id: u64) -> MetroMapView {
    if !m.lines.contains_key(id) {
        m
    } else {
        line_taken_off(
            MetroMapView { lines: m.lines.remove(id), ..m },
            m.lines[id].id,
            m.lines[id].edges,
        )
    }
}

proof fn lemma_lines_without_twice(s: Seq<LineID>, l: LineID)
    requires
        strictly_sorted_ids(s),
    ensures
        lines_without(lines_without(s, l), l) == lines_without(s, l),
        strictly_sorted_ids(lines_without(s, l)),
{
    if s.contains(l) {
        let p = insertion_point(s, l.0);
        let j = choose|j: int| 0 <= j < s.len() && #[trigger] s[j] == l;
        let q = crate::models::edge::lemma_split_point_exists_pub(s, l.0);
        crate::models::edge::lemma_insertion_point_pub(s, l.0, q);
        assert(p == j) by {
            if p < j {
                assert(s[p].0 < s[j].0);
            } else if p > j {
                assert(s[j].0 < l.0);
            }
        }
        let t = s.remove(p);
        if t.contains(l) {
            let i = choose|i: int| 0 <= i < t.len() && #[trigger] t[i] == l;
            if i < p {
                assert(s[i] == l);
            } else {
                assert(s[i + 1] == l);
            }
        }
        assert forall|a: int, b: int| 0 <= a < b < t.len() implies t[a].0 < t[b].0 by {
            if b < p {
            } else if a < p {
                assert(t[b] == s[b + 1]);
            } else {
                assert(t[a] == s[a + 1]);
                assert(t[b] == s[b + 1]);
            }
        }
    }
}

proof fn lemma_take_off_facts(m: MetroMapView, line: LineID, p: Seq<EdgeID>, k: u64)
    requires
        m.wf(),
        m.edges.contains_key(k),
        !emptied_edges(m, line, p).contains(k),
    ensures
        line_taken_off(m, line, p).edges.contains_key(k),
        line_taken_off(m, line, p).edges[k].from == m.edges[k].from,
        line_taken_off(m, line, p).edges[k].to == m.edges[k].to,
        lines_without(line_taken_off(m, line, p).edges[k].lines, line) == lines_without(
            m.edges[k].lines,
            line,
        ),
{
    if p.contains(EdgeID(k)) {
        lemma_lines_without_twice(m.edges[k].lines, line);
    }
}

proof fn lemma_take_off_start(m: MetroMapView, line: LineID)
    requires
        m.wf(),
    ensures
        line_taken_off(m, line, Seq::empty()) == m,
{
    let t = line_taken_off(m, line, Seq::empty());
    let d = emptied_edges(m, line, Seq::<EdgeID>::empty());
    assert(d =~= Set::<u64>::empty());
    assert forall|k: u64| m.stations.contains_key(k) implies #[trigger] t.stations[k] == m.stations[k] by {
        assert(touching(m, d, k) =~= Set::<u64>::empty());
        lemma_without_all_empty(m.stations[k].edges);
    }
    assert forall|k: u64| m.lines.contains_key(k) implies #[trigger] t.lines[k] == m.lines[k] by {
        lemma_without_all_empty(m.lines[k].edges);
    }
    assert(t.stations =~= m.stations);
    assert(t.lines =~= m.lines);
    assert(t.edges =~= m.edges);
}

proof fn lemma_take_off_skip(m: MetroMapView, line: LineID, p: Seq<EdgeID>, e: EdgeID)
    requires
        m.wf(),
        !line_taken_off(m, line, p).edges.contains_key(e.0),
    ensures
        line_taken_off(m, line, p.push(e)) == line_taken_off(m, line, p),
{
    let a = line_taken_off(m, line, p);
    let b = line_taken_off(m, line, p.push(e));
    let d = emptied_edges(m, line, p);
    let d2 = emptied_edges(m, line, p.push(e));
    assert forall|k: u64| d2.contains(k) <==> d.contains(k) by {
        lemma_push_contains(p, e, EdgeID(k));
        if k == e.0 && m.edges.contains_key(k) {
            assert(d.contains(k));
        }
    }
    assert(d2 =~= d);
    assert forall|k: u64| m.stations.contains_key(k) implies #[trigger] b.stations[k] == a.stations[k] by {
        assert(touching(m, d2, k) =~= touching(m, d, k));
    }
    assert(b.stations =~= a.stations);
    assert(b.lines =~= a.lines);
    assert forall|k: u64| #[trigger] b.edges.contains_key(k) implies b.edges[k] == a.edges[k] by {
        lemma_push_contains(p, e, EdgeID(k));
    }
    assert(b.edges =~= a.edges);
}

proof fn lemma_take_off_keep(m: MetroMapView, line: LineID, p: Seq<EdgeID>, e: EdgeID)
    requires
        m.wf(),
        line_taken_off(m, line, p).edges.contains_key(e.0),
        lines_without(m.edges[e.0].lines, line).len() != 0,
    ensures
        ({
            let a = line_taken_off(m, line, p);
            line_taken_off(m, line, p.push(e)) == (MetroMapView {
                edges: a.edges.insert(
                    e.0,
                    EdgeView { lines: lines_without(m.edges[e.0].lines, line), ..a.edges[e.0] },
                ),
                ..a
            })
        }),
{
    let a = line_taken_off(m, line, p);
    let b = line_taken_off(m, line, p.push(e));
    let d = emptied_edges(m, line, p);
    let d2 = emptied_edges(m, line, p.push(e));
    assert forall|k: u64| d2.contains(k) <==> d.contains(k) by {
        lemma_push_contains(p, e, EdgeID(k));
    }
    assert(d2 =~= d);
    assert forall|k: u64| m.stations.contains_key(k) implies #[trigger] b.stations[k] == a.stations[k] by {
        assert(touching(m, d2, k) =~= touching(m, d, k));
    }
    assert(b.stations =~= a.stations);
    assert(b.lines =~= a.lines);
    let target = a.edges.insert(
        e.0,
        EdgeView { lines: lines_without(m.edges[e.0].lines, line), ..a.edges[e.0] },
    );
    assert forall|k: u64| #[trigger] b.edges.contains_key(k) implies b.edges[k] == target[k] by {
        lemma_push_contains(p, e, EdgeID(k));
    }
    assert(b.edges =~= target);
}

proof fn lemma_take_off_drop(m: MetroMapView, line: LineID, p: Seq<EdgeID>, e: EdgeID)
    requires
        m.wf(),
        line_taken_off(m, line, p).edges.contains_key(e.0),
        lines_without(m.edges[e.0].lines, line).len() == 0,
    ensures
        ({
            let a = line_taken_off(m, line, p);
            let mid = MetroMapView {
                edges: a.edges.insert(
                    e.0,
                    EdgeView { lines: lines_without(m.edges[e.0].lines, line), ..a.edges[e.0] },
                ),
                ..a
            };
            line_taken_off(m, line, p.push(e)) == without_edge(mid, e.0)
        }),
{
    let a = line_taken_off(m, line, p);
    let mid = MetroMapView {
        edges: a.edges.insert(
            e.0,
            EdgeView { lines: lines_without(m.edges[e.0].lines, line), ..a.edges[e.0] },
        ),
        ..a
    };
    let b = line_taken_off(m, line, p.push(e));
    let c = without_edge(mid, e.0);
    let d = emptied_edges(m, line, p);
    let d2 = emptied_edges(m, line, p.push(e));
    assert(m.edges.contains_key(e.0));
    assert forall|k: u64| d2.contains(k) <==> d.insert(e.0).contains(k) by {
        lemma_push_contains(p, e, EdgeID(k));
    }
    assert(d2 =~= d.insert(e.0));
    let ee = m.edges[e.0];
    assert(mid.edges[e.0].from == ee.from && mid.edges[e.0].to == ee.to);
    assert forall|k: u64| m.stations.contains_key(k) implies #[trigger] b.stations[k] == c.stations[k] by {
        let t = touching(m, d, k);
        let sk = m.stations[k].edges;
        if ee.from.0 == k || ee.to.0 == k {
            assert(touching(m, d2, k) =~= t.insert(e.0));
            lemma_without_all_step(sk, t, e.0);
            lemma_without_all_step(sk, t.insert(e.0), e.0);
            assert(t.insert(e.0).insert(e.0) =~= t.insert(e.0));
        } else {
            assert(touching(m, d2, k) =~= t);
        }
    }
    assert(b.stations =~= c.stations);
    assert forall|k: u64| m.lines.contains_key(k) implies #[trigger] b.lines[k] == c.lines[k] by {
        lemma_without_all_step(m.lines[k].edges, d, e.0);
    }
    assert(b.lines =~= c.lines);
    assert forall|k: u64| #[trigger] b.edges.contains_key(k) implies b.edges[k] == c.edges[k] by {
        lemma_push_contains(p, e, EdgeID(k));
    }
    assert(b.edges =~= c.edges);
}

/// Leaving out an element that is not there changes nothing.
pub proof fn lemma_without_absent<A>(s: Seq<A>, x: A)
    requires
        !s.contains(x),
    ensures
        seq_without(s, x) == s,
    decreases s.len(),
{
    if s.len() > 0 {
        let d = s.drop_last();
        assert(!d.contains(x)) by {
            if d.contains(x) {
                let i = choose|i: int| 0 <= i < d.len() && d[i] == x;
                assert(s[i] == x);
            }
        }
        assert(s.last() != x) by {
            if s.last() == x {
                assert(s[s.len() - 1] == x);
            }
        }
        lemma_without_absent(d, x);
        assert(d.push(s.last()) =~= s);
    }
}

/// What `push_once` adds to a sequence is exactly the one element.
pub proof fn lemma_push_once_contains<A>(s: Seq<A>, x: A, y: A)
    ensures
        push_once(s, x).contains(y) <==> (s.contains(y) || y == x),
{
    if !s.contains(x) {
        lemma_push_contains(s, x, y);
    }
}

/// What `push` adds to a sequence is exactly the one element.
pub proof fn lemma_push_contains<A>(s: Seq<A>, x: A, y: A)
    ensures
        s.push(x).contains(y) <==> (s.contains(y) || y == x),
{
    if s.push(x).contains(y) {
        let i = choose|i: int| 0 <= i < s.push(x).len() && #[trigger] s.push(x)[i] == y;
        if i < s.len() {
            assert(s[i] == y);
        }
    }
    if s.contains(y) {
        let i = choose|i: int| 0 <= i < s.len() && #[trigger] s[i] == y;
        assert(s.push(x)[i] == y);
    }
    if y == x {
        assert(s.push(x)[s.len() as int] == y);
    }
}

proof fn lemma_with_edge_kept(m: MetroMapView, e: EdgeView)
    requires
        m.stations.contains_key(e.from.0),
        m.stations.contains_key(e.to.0),
    ensures
        station_places_kept(m, with_edge(m, e)),
{
    let f = with_edge(m, e);
    assert(f.stations.dom() =~= m.stations.dom());
}

proof fn lemma_without_edge_kept(m: MetroMapView, id: u64)
    ensures
        station_places_kept(m, without_edge(m, id)),
{
    let f = without_edge(m, id);
    assert(f.stations.dom() =~= m.stations.dom());
}

proof fn lemma_strictly_sorted_is_sorted(s: Seq<LineID>)
    requires
        strictly_sorted_ids(s),
    ensures
        sorted_ids(s),
{
}

proof fn lemma_nodes_updated(m: MetroMapView, us: Seq<EdgeView>)
    ensures
        nodes_updated(m, us).stations == m.stations,
        nodes_updated(m, us).lines == m.lines,
        nodes_updated(m, us).edges.dom() == m.edges.dom(),
        forall|k: u64| #[trigger] m.edges.contains_key(k) ==> {
            let e = nodes_updated(m, us).edges[k];
            &&& e.id == m.edges[k].id
            &&& e.from == m.edges[k].from
            &&& e.to == m.edges[k].to
            &&& e.lines == m.edges[k].lines
        },
    decreases us.len(),
{
    if us.len() > 0 {
        lemma_nodes_updated(m, us.drop_last());
    }
}

proof fn lemma_nodes_updated_keeps(m: MetroMapView, us: Seq<EdgeView>)
    ensures
        forall|j: int|
            0 <= j <= us.len() ==> {
                let f = #[trigger] nodes_updated(m, us.take(j));
                &&& m.wf() ==> f.wf()
                &&& m.edges_attached() ==> f.edges_attached()
                &&& m.lines_valid() ==> f.lines_valid()
                &&& station_places_kept(m, f)
            },
{
    assert forall|j: int| 0 <= j <= us.len() implies {
        let f = #[trigger] nodes_updated(m, us.take(j));
        &&& m.wf() ==> f.wf()
        &&& m.edges_attached() ==> f.edges_attached()
        &&& m.lines_valid() ==> f.lines_valid()
        &&& station_places_kept(m, f)
    } by {
        let f = nodes_updated(m, us.take(j));
        lemma_nodes_updated(m, us.take(j));
        assert forall|k: u64| #[trigger] f.edges.contains_key(k) implies m.edges.contains_key(k) by {}
    }
}

proof fn lemma_lines_with_twice(s: Seq<LineID>, l: LineID)
    requires
        sorted_ids(s),
    ensures
        lines_with(lines_with(s, l), l) == lines_with(s, l),
        lines_with(s, l).contains(l),
{
    if !s.contains(l) {
        let q = crate::models::edge::lemma_split_point_exists_pub(s, l.0);
        crate::models::edge::lemma_insertion_point_pub(s, l.0, q);
        let p = insertion_point(s, l.0);
        assert(s.insert(p, l)[p] == l);
    }
}

/// If the edge goes through the node: one of its nodes is the node, or one
/// of its end stations stands on it.
pub open spec fn edge_visits(m: MetroMapView, e: EdgeView, node: GridNode) -> bool {
    ||| e.nodes.contains(node)
    ||| (m.stations.contains_key(e.from.0) && m.stations[e.from.0].pos == node)
    ||| (m.stations.contains_key(e.to.0) && m.stations[e.to.0].pos == node)
}

/// The stations on either side of the node on the edge, as the edge sees
/// them: both ends if the node is one of its nodes; otherwise the end whose
/// surrounding nodes include it, on the side where it lies.
pub open spec fn neighboring_stations(m: MetroMapView, e: EdgeView, node: GridNode) -> (
    Option<StationID>,
    Option<StationID>,
) {
    if e.nodes.contains(node) {
        (Some(e.from), Some(e.to))
    } else if m.stations.contains_key(e.from.0) && neighbors_of(m.stations[e.from.0].pos).contains(
        node,
    ) {
        (None, Some(e.from))
    } else if m.stations.contains_key(e.to.0) && neighbors_of(m.stations[e.to.0].pos).contains(
        node,
    ) {
        (Some(e.to), None)
    } else {
        (None, None)
    }
}

/// An edge goes through each of its nodes and the places of its end
/// stations. Around a node, it sees both its ends where the node is one of
/// its nodes; else its start after a node next to its start; else its end
/// before a node next to its end; else nothing.
pub proof fn lemma_edge_around_node(m: MetroMapView, e: EdgeView, node: GridNode)
    ensures
        e.nodes.contains(node) ==> edge_visits(m, e, node),
        m.stations.contains_key(e.from.0) && m.stations[e.from.0].pos == node ==> edge_visits(m, e, node),
        m.stations.contains_key(e.to.0) && m.stations[e.to.0].pos == node ==> edge_visits(m, e, node),
        e.nodes.contains(node) ==> neighboring_stations(m, e, node) == (Some(e.from), Some(e.to)),
        !e.nodes.contains(node) && m.stations.contains_key(e.from.0) && neighbors_of(m.stations[e.from.0].pos).contains(node)
            ==> neighboring_stations(m, e, node) == (None::<StationID>, Some(e.from)),
        !e.nodes.contains(node) && !(m.stations.contains_key(e.from.0) && neighbors_of(
            m.stations[e.from.0].pos,
        ).contains(node)) && m.stations.contains_key(e.to.0) && neighbors_of(m.stations[e.to.0].pos).contains(node)
            ==> neighboring_stations(m, e, node) == (Some(e.to), None::<StationID>),
        !e.nodes.contains(node) && !(m.stations.contains_key(e.from.0) && neighbors_of(
            m.stations[e.from.0].pos,
        ).contains(node)) && !(m.stations.contains_key(e.to.0) && neighbors_of(m.stations[e.to.0].pos).contains(node))
            ==> neighboring_stations(m, e, node) == (None::<StationID>, None::<StationID>),
{
}

/// Every station of the map has all eight neighboring grid nodes.
pub open spec fn stations_inside_grid(m: MetroMapView) -> bool {
    forall|k: u64| #[trigger] m.stations.contains_key(k) ==> has_all_neighbors(m.stations[k].pos)
}

impl Edge {
    /// Returns if the edge goes through the node.
    pub fn visits_node(&self, map: &MetroMap, node: GridNode) -> (r: bool)
        ensures
            r == edge_visits(map@, self@, node),
    {
        if crate::models::util::contains_node(self.get_nodes(), node) {
            return true;
        }
        match map.get_station(self.get_from()) {
            Some(from) => {
                if from.get_pos() == node {
                    return true;
                }
            },
            None => {},
        }
        match map.get_station(self.get_to()) {
            Some(to) => {
                if to.get_pos() == node {
                    return true;
                }
            },
            None => {},
        }
        false
    }

    /// Get the stations bordering the node on this edge.
    pub fn get_neigboring_stations(&self, map: &MetroMap, node: GridNode) -> (r: Option<
        (Option<StationID>, Option<StationID>),
    >)
        requires
            stations_inside_grid(map@),
        ensures
            r == Some(neighboring_stations(map@, self@, node)),
    {
        if crate::models::util::contains_node(self.get_nodes(), node) {
            return Some((Some(self.get_from()), Some(self.get_to())));
        }
        match map.get_station(self.get_from()) {
            Some(from) => {
                assert(map@.stations.contains_key(self@.from.0));
                if from.is_neighbor(node) {
                    return Some((None, Some(self.get_from())));
                }
            },
            None => {},
        }
        match map.get_station(self.get_to()) {
            Some(to) => {
                assert(map@.stations.contains_key(self@.to.0));
                if to.is_neighbor(node) {
                    return Some((Some(self.get_to()), None));
                }
            },
            None => {},
        }
        Some((None, None))
    }
}

impl Station {
    /// Check if one of the edges the station lists is a locked edge of the
    /// map.
    pub fn has_locked_edge(&self, map: &MetroMap) -> (r: bool)
        ensures
            r == exists|i: int|
                0 <= i < self@.edges.len() && map@.edges.contains_key(#[trigger] self@.edges[i].0)
                    && map@.edges[self@.edges[i].0].is_locked,
    {
        let edges = self.get_edges();
        let mut i: usize = 0;
        while i < edges.len()
            invariant
                i <= edges@.len(),
                edges@ == self@.edges,
                forall|j: int|
                    0 <= j < i ==> !(map@.edges.contains_key(#[trigger] edges@[j].0)
                        && map@.edges[edges@[j].0].is_locked),
            decreases edges@.len() - i,
        {
            match map.get_edge(edges[i]) {
                Some(e) => {
                    if e.is_locked() {
                        return true;
                    }
                },
                None => {},
            }
            i = i + 1;
        }
        false
    }
}

/// What a new edge from `from` to `to` with the given id holds.
pub open spec fn new_edge_view(id: EdgeID, from: StationID, to: StationID) -> EdgeView {
    EdgeView {
        id,
        from,
        to,
        nodes: Seq::empty(),
        lines: Seq::empty(),
        is_settled: false,
        is_locked: false,
        is_selected: false,
        contracted_stations: Seq::empty(),
    }
}

/// Represents the metro map as a whole with all its lines, stations and the
/// edges between those stations.
#[derive(Clone, Debug)]
pub struct MetroMap {
    /// All stations on the map.
    stations: HashMap<u64, Station>,
    /// All lines on the map.
    lines: HashMap<u64, Line>,
    /// All edges on the map.
    edges: HashMap<u64, Edge>,
}

impl View for MetroMap {
    type V = MetroMapView;

    closed spec fn view(&self) -> MetroMapView {
        MetroMapView {
            stations: self.stations@.map_values(|s: Station| s@),
            lines: self.lines@.map_values(|l: Line| l@),
            edges: self.edges@.map_values(|e: Edge| e@),
        }
    }
}

impl MetroMap {
    /// Creates a new, empty map.
    pub fn new() -> (r: Self)
        ensures
            r@.stations == Map::<u64, StationView>::empty(),
            r@.lines == Map::<u64, LineView>::empty(),
            r@.edges == Map::<u64, EdgeView>::empty(),
            r@.wf(),
            r@.edges_attached(),
            r@.lines_valid(),
    {
        let r = MetroMap { stations: HashMap::new(), lines: HashMap::new(), edges: HashMap::new() };
        assert(r@.stations =~= Map::<u64, StationView>::empty());
        assert(r@.lines =~= Map::<u64, LineView>::empty());
        assert(r@.edges =~= Map::<u64, EdgeView>::empty());
        r
    }

    /// Get the [`Station`] with the given id.
    pub fn get_station(&self, id: StationID) -> (r: Option<&Station>)
        ensures
            match r {
                Some(s) => self@.stations.contains_key(id.0) && s@ == self@.stations[id.0],
                None => !self@.stations.contains_key(id.0),
            },
    {
        self.stations.get(&id.0)
    }

    /// Get the [`Station`] with the given id to change it.
    pub fn get_mut_station(&mut self, id: StationID) -> (r: Option<&mut Station>)
        ensures
            match r {
                Some(s) => {
                    &&& old(self)@.stations.contains_key(id.0)
                    &&& s@ == old(self)@.stations[id.0]
                    &&& final(self)@.stations == old(self)@.stations.insert(id.0, final(s)@)
                    &&& final(self)@.lines == old(self)@.lines
                    &&& final(self)@.edges == old(self)@.edges
                },
                None => !old(self)@.stations.contains_key(id.0) && final(self)@ == old(self)@,
            },
    {
        map_get_mut(&mut self.stations, id.0)
    }

    /// Get the [`Line`] with the given id.
    pub fn get_line(&self, id: LineID) -> (r: Option<&Line>)
        ensures
            match r {
                Some(l) => self@.lines.contains_key(id.0) && l@ == self@.lines[id.0],
                None => !self@.lines.contains_key(id.0),
            },
    {
        self.lines.get(&id.0)
    }

    /// Get the [`Line`] with the given id to change it.
    pub fn get_mut_line(&mut self, id: LineID) -> (r: Option<&mut Line>)
        ensures
            match r {
                Some(l) => {
                    &&& old(self)@.lines.contains_key(id.0)
                    &&& l@ == old(self)@.lines[id.0]
                    &&& final(self)@.lines == old(self)@.lines.insert(id.0, final(l)@)
                    &&& final(self)@.stations == old(self)@.stations
                    &&& final(self)@.edges == old(self)@.edges
                },
                None => !old(self)@.lines.contains_key(id.0) && final(self)@ == old(self)@,
            },
    {
        map_get_mut(&mut self.lines, id.0)
    }

    /// Get the [`Edge`] with the given id.
    pub fn get_edge(&self, id: EdgeID) -> (r: Option<&Edge>)
        ensures
            match r {
                Some(e) => self@.edges.contains_key(id.0) && e@ == self@.edges[id.0],
                None => !self@.edges.contains_key(id.0),
            },
    {
        self.edges.get(&id.0)
    }

    /// Get the [`Edge`] with the given id to change it.
    pub fn get_mut_edge(&mut self, id: EdgeID) -> (r: Option<&mut Edge>)
        ensures
            match r {
                Some(e) => {
                    &&& old(self)@.edges.contains_key(id.0)
                    &&& e@ == old(self)@.edges[id.0]
                    &&& final(self)@.edges == old(self)@.edges.insert(id.0, final(e)@)
                    &&& final(self)@.stations == old(self)@.stations
                    &&& final(self)@.lines == old(self)@.lines
                },
                None => !old(self)@.edges.contains_key(id.0) && final(self)@ == old(self)@,
            },
    {
        map_get_mut(&mut self.edges, id.0)
    }

    /// The identifiers of all stations on the map, each once, in no
    /// particular order.
    pub fn station_ids(&self) -> (r: Vec<StationID>)
        ensures
            r@.no_duplicates(),
            forall|i: int| 0 <= i < r@.len() ==> self@.stations.contains_key(#[trigger] r@[i].0),
            forall|k: u64| self@.stations.contains_key(k) ==> r@.contains(StationID(k)),
    {
        let keys = keys_of(&self.stations);
        let mut out: Vec<StationID> = Vec::new();
        let mut i: usize = 0;
        while i < keys.len()
            invariant
                i <= keys@.len(),
                out@.len() == i,
                forall|j: int| 0 <= j < i ==> (#[trigger] out@[j]).0 == keys@[j],
            decreases keys@.len() - i,
        {
            out.push(StationID(keys[i]));
            i = i + 1;
        }
        proof {
            assert forall|k: u64| self@.stations.contains_key(k) implies out@.contains(StationID(k)) by {
                assert(self.stations@.dom().contains(k));
                assert(keys@.to_set().contains(k));
                let j = choose|j: int| 0 <= j < keys@.len() && #[trigger] keys@[j] == k;
                assert(out@[j] == StationID(k));
            }
            assert forall|a: int, b: int| 0 <= a < b < out@.len() implies out@[a] != out@[b] by {
                assert(keys@[a] != keys@[b]);
            }
        }
        out
    }

    /// The identifiers of all edges on the map, each once, in no particular
    /// order.
    pub fn edge_ids(&self) -> (r: Vec<EdgeID>)
        ensures
            r@.no_duplicates(),
            forall|i: int| 0 <= i < r@.len() ==> self@.edges.contains_key(#[trigger] r@[i].0),
            forall|k: u64| self@.edges.contains_key(k) ==> r@.contains(EdgeID(k)),
    {
        let keys = keys_of(&self.edges);
        let mut out: Vec<EdgeID> = Vec::new();
        let mut i: usize = 0;
        while i < keys.len()
            invariant
                i <= keys@.len(),
                out@.len() == i,
                forall|j: int| 0 <= j < i ==> (#[trigger] out@[j]).0 == keys@[j],
            decreases keys@.len() - i,
        {
            out.push(EdgeID(keys[i]));
            i = i + 1;
        }
        proof {
            assert forall|k: u64| self@.edges.contains_key(k) implies out@.contains(EdgeID(k)) by {
                assert(self.edges@.dom().contains(k));
                assert(keys@.to_set().contains(k));
                let j = choose|j: int| 0 <= j < keys@.len() && #[trigger] keys@[j] == k;
                assert(out@[j] == EdgeID(k));
            }
            assert forall|a: int, b: int| 0 <= a < b < out@.len() implies out@[a] != out@[b] by {
                assert(keys@[a] != keys@[b]);
            }
        }
        out
    }

    /// The identifiers of all lines on the map, each once, in no particular
    /// order.
    pub fn line_ids(&self) -> (r: Vec<LineID>)
        ensures
            r@.no_duplicates(),
            forall|i: int| 0 <= i < r@.len() ==> self@.lines.contains_key(#[trigger] r@[i].0),
            forall|k: u64| self@.lines.contains_key(k) ==> r@.contains(LineID(k)),
    {
        let keys = keys_of(&self.lines);
        let mut out: Vec<LineID> = Vec::new();
        let mut i: usize = 0;
        while i < keys.len()
            invariant
                i <= keys@.len(),
                out@.len() == i,
                forall|j: int| 0 <= j < i ==> (#[trigger] out@[j]).0 == keys@[j],
            decreases keys@.len() - i,
        {
            out.push(LineID(keys[i]));
            i = i + 1;
        }
        proof {
            assert forall|k: u64| self@.lines.contains_key(k) implies out@.contains(LineID(k)) by {
                assert(self.lines@.dom().contains(k));
                assert(keys@.to_set().contains(k));
                let j = choose|j: int| 0 <= j < keys@.len() && #[trigger] keys@[j] == k;
                assert(out@[j] == LineID(k));
            }
            assert forall|a: int, b: int| 0 <= a < b < out@.len() implies out@[a] != out@[b] by {
                assert(keys@[a] != keys@[b]);
            }
        }
        out
    }

    /// Add a station to the map; a station that has the same id is replaced.
    pub fn add_station(&mut self, station: Station)
        ensures
            final(self)@ == with_station(old(self)@, station@),
            old(self)@.wf() ==> final(self)@.wf(),
            old(self)@.edges_attached() ==> final(self)@.edges_attached(),
            old(self)@.lines_valid() ==> final(self)@.lines_valid(),
    {
        let ghost sv = station@;
        self.stations.insert(station.get_id().0, station);
        assert(self@.stations =~= old(self)@.stations.insert(sv.id.0, sv));
        proof {
            let o = old(self)@;
            let f = self@;
            assert forall|k: u64| #[trigger] f.stations.contains_key(k) implies (o.wf() ==> f.stations[k].id.0 == k) by {
                if k != sv.id.0 {
                    assert(o.stations.contains_key(k));
                }
            }
            assert forall|k: u64| #[trigger] f.edges.contains_key(k) implies (o.edges_attached() ==> (f.stations.contains_key(f.edges[k].from.0)
                && f.stations.contains_key(f.edges[k].to.0))) by {
                assert(o.edges.contains_key(k));
            }
            assert(f.lines == o.lines);
            assert(f.edges == o.edges);
        }
    }

    /// Add an edge to the map: both its ends list it, and an edge with the
    /// same id is replaced.
    pub fn add_edge(&mut self, edge: Edge)
        requires
            old(self)@.stations.contains_key(edge@.from.0),
            old(self)@.stations.contains_key(edge@.to.0),
        ensures
            final(self)@ == with_edge(old(self)@, edge@),
            old(self)@.wf() && strictly_sorted_ids(edge@.lines) ==> final(self)@.wf(),
            old(self)@.edges_attached() ==> final(self)@.edges_attached(),
            old(self)@.lines_valid() ==> final(self)@.lines_valid(),
            station_places_kept(old(self)@, final(self)@),
    {
        let ghost ev = edge@;
        let id = edge.get_id();
        let from = edge.get_from();
        let to = edge.get_to();
        match self.get_mut_station(from) {
            Some(s) => s.add_edge(id),
            None => {},
        }
        match self.get_mut_station(to) {
            Some(s) => s.add_edge(id),
            None => {},
        }
        self.edges.insert(id.0, edge);
        assert(self@.edges =~= old(self)@.edges.insert(ev.id.0, ev));
        assert(self@ == with_edge(old(self)@, ev));
        proof {
            lemma_with_edge_kept(old(self)@, ev);
        }
    }

    /// Remove an edge from the map, from the stations at its ends and from
    /// every line of the map.
    pub fn remove_edge(&mut self, id: EdgeID)
        ensures
            final(self)@ == without_edge(old(self)@, id.0),
            old(self)@.wf() ==> final(self)@.wf(),
            old(self)@.edges_attached() ==> final(self)@.edges_attached(),
            old(self)@.lines_valid() ==> final(self)@.lines_valid(),
            station_places_kept(old(self)@, final(self)@),
    {
        proof {
            lemma_without_edge_kept(old(self)@, id.0);
        }
        let removed = self.edges.remove(&id.0);
        match removed {
            None => {
                assert(self@ =~= old(self)@);
            },
            Some(edge) => {
                let ghost e = old(self)@.edges[id.0];
                assert(edge@ == e);
                let from = edge.get_from();
                let to = edge.get_to();
                match self.get_mut_station(from) {
                    Some(s) => s.remove_edge(id),
                    None => {},
                }
                match self.get_mut_station(to) {
                    Some(s) => s.remove_edge(id),
                    None => {},
                }
                let ghost mid = self@;
                let keys = self.line_ids();
                let mut i: usize = 0;
                while i < keys.len()
                    invariant
                        i <= keys@.len(),
                        keys@.no_duplicates(),
                        forall|j: int| 0 <= j < keys@.len() ==> mid.lines.contains_key(#[trigger] keys@[j].0),
                        forall|k: u64| mid.lines.contains_key(k) ==> keys@.contains(LineID(k)),
                        self@.stations == mid.stations,
                        self@.edges == mid.edges,
                        self@.lines.dom() == mid.lines.dom(),
                        forall|k: u64| #[trigger] self@.lines.contains_key(k) ==> self@.lines[k] == (
                        if keys@.take(i as int).contains(LineID(k)) {
                            LineView { edges: seq_without(mid.lines[k].edges, id), ..mid.lines[k] }
                        } else {
                            mid.lines[k]
                        }),
                    decreases keys@.len() - i,
                {
                    let k = keys[i];
                    let ghost before = self@;
                    match self.get_mut_line(k) {
                        Some(l) => l.remove_edge_raw(id),
                        None => {},
                    }
                    proof {
                        assert forall|q: u64| #[trigger] self@.lines.contains_key(q) implies self@.lines[q] == (
                        if keys@.take(i + 1).contains(LineID(q)) {
                            LineView { edges: seq_without(mid.lines[q].edges, id), ..mid.lines[q] }
                        } else {
                            mid.lines[q]
                        }) by {
                            if q == k.0 {
                                assert(keys@.take(i + 1)[i as int] == k);
                                if keys@.take(i as int).contains(LineID(q)) {
                                    let j = choose|j: int| 0 <= j < i && #[trigger] keys@.take(i as int)[j] == LineID(q);
                                    assert(keys@[j] == keys@[i as int]);
                                }
                            } else {
                                if keys@.take(i + 1).contains(LineID(q)) {
                                    let j = choose|j: int| 0 <= j < i + 1 && #[trigger] keys@.take(i + 1)[j] == LineID(q);
                                    assert(j < i);
                                    assert(keys@.take(i as int)[j] == LineID(q));
                                }
                                if keys@.take(i as int).contains(LineID(q)) {
                                    let j = choose|j: int| 0 <= j < i && #[trigger] keys@.take(i as int)[j] == LineID(q);
                                    assert(keys@.take(i + 1)[j] == LineID(q));
                                }
                            }
                        }
                    }
                    i = i + 1;
                }
                proof {
                    assert(keys@.take(keys@.len() as int) =~= keys@);
                    let target = without_edge(old(self)@, id.0);
                    assert(self@.lines =~= target.lines);
                    assert(self@.edges =~= target.edges);
                    assert(self@.stations =~= target.stations);
                }
            },
        }
        proof {
            if old(self)@.lines_valid() {
                let m = final(self)@;
                assert forall|k: u64, i: int|
                    m.lines.contains_key(k) && 0 <= i < m.lines[k].edges.len()
                    implies m.edges.contains_key(#[trigger] m.lines[k].edges[i].0) by {
                    if old(self)@.edges.contains_key(id.0) {
                        let olde = old(self)@.lines[k].edges;
                        crate::models::station::lemma_remove_edge_removes(olde, id);
                        let y = m.lines[k].edges[i];
                        assert(seq_without(olde, id).contains(y));
                        assert(y != id);
                        assert(olde.contains(y));
                        let j = choose|j: int| 0 <= j < olde.len() && #[trigger] olde[j] == y;
                        assert(old(self)@.lines[k].edges[j] == y);
                        assert(y.0 != id.0);
                    }
                }
            }
        }
    }

    /// Add a line to the map (replacing a line with the same id); every edge
    /// of the map that the line uses is marked as used by it.
    pub fn add_line(&mut self, line: Line)
        requires
            old(self)@.wf(),
        ensures
            final(self)@ == with_line(old(self)@, line@),
            final(self)@.wf(),
            old(self)@.edges_attached() ==> final(self)@.edges_attached(),
            old(self)@.lines_valid() && (forall|i: int|
                0 <= i < line@.edges.len() ==> old(self)@.edges.contains_key(
                    #[trigger] line@.edges[i].0,
                )) ==> final(self)@.lines_valid(),
            station_places_kept(old(self)@, final(self)@),
    {
        let ghost lv = line@;
        let line_id = line.get_id();
        let n = line.get_edges().len();
        let mut i: usize = 0;
        while i < n
            invariant
                i <= n,
                n == lv.edges.len(),
                line@ == lv,
                line_id == lv.id,
                old(self)@.wf(),
                self@.wf(),
                self@.stations == old(self)@.stations,
                self@.lines == old(self)@.lines,
                self@.edges.dom() == old(self)@.edges.dom(),
                forall|k: u64| #[trigger] self@.edges.contains_key(k) ==> self@.edges[k] == (
                if lv.edges.take(i as int).contains(EdgeID(k)) {
                    EdgeView { lines: lines_with(old(self)@.edges[k].lines, lv.id), ..old(self)@.edges[k] }
                } else {
                    old(self)@.edges[k]
                }),
            decreases n - i,
        {
            let e = line.get_edges()[i];
            let ghost before = self@;
            match self.get_mut_edge(e) {
                Some(edge) => {
                    edge.add_line(line_id);
                },
                None => {},
            }
            proof {
                assert forall|k: u64| #[trigger] self@.edges.contains_key(k) implies self@.edges[k] == (
                if lv.edges.take(i + 1).contains(EdgeID(k)) {
                    EdgeView { lines: lines_with(old(self)@.edges[k].lines, lv.id), ..old(self)@.edges[k] }
                } else {
                    old(self)@.edges[k]
                }) by {
                    assert(lv.edges.take(i + 1) =~= lv.edges.take(i as int).push(e));
                    lemma_push_contains(lv.edges.take(i as int), e, EdgeID(k));
                    if k == e.0 {
                        assert(old(self)@.edges.contains_key(k));
                        lemma_strictly_sorted_is_sorted(old(self)@.edges[k].lines);
                        lemma_lines_with_twice(old(self)@.edges[k].lines, lv.id);
                    }
                }
                assert forall|k: u64| #[trigger] self@.edges.contains_key(k) implies strictly_sorted_ids(self@.edges[k].lines) by {
                    assert(before.edges.contains_key(k));
                }
            }
            i = i + 1;
        }
        self.lines.insert(line_id.0, line);
        proof {
            assert(lv.edges.take(n as int) =~= lv.edges);
            assert(self@.lines =~= old(self)@.lines.insert(lv.id.0, lv));
            assert(self@.edges =~= with_line(old(self)@, lv).edges);
            if old(self)@.lines_valid() && (forall|i: int|
                0 <= i < lv.edges.len() ==> old(self)@.edges.contains_key(#[trigger] lv.edges[i].0)) {
                let m = self@;
                assert forall|k: u64, j: int|
                    m.lines.contains_key(k) && 0 <= j < m.lines[k].edges.len()
                    implies m.edges.contains_key(#[trigger] m.lines[k].edges[j].0) by {
                    if k != lv.id.0 {
                        assert(old(self)@.lines[k].edges[j] == m.lines[k].edges[j]);
                    }
                }
            }
        }
    }

    /// Remove a line from the map. Every edge it used is no longer used by
    /// it, and such an edge that is then used by no line is removed.
    pub fn remove_line(&mut self, id: LineID)
        requires
            old(self)@.wf(),
        ensures
            final(self)@ == without_line(old(self)@, id.0),
            final(self)@.wf(),
            old(self)@.edges_attached() ==> final(self)@.edges_attached(),
            old(self)@.lines_valid() ==> final(self)@.lines_valid(),
            station_places_kept(old(self)@, final(self)@),
    {
        let removed = self.lines.remove(&id.0);
        match removed {
            None => {
                assert(self@ =~= old(self)@);
            },
            Some(line) => {
                let ghost m0 = self@;
                let ghost lv = line@;
                assert(old(self)@.lines.contains_key(id.0));
                assert(m0 =~= MetroMapView { lines: old(self)@.lines.remove(id.0), ..old(self)@ });
                assert(lv == old(self)@.lines[id.0]);
                assert(lv.id == id);
                proof {
                    lemma_take_off_start(m0, id);
                    assert(lv.edges.take(0) =~= Seq::<EdgeID>::empty());
                }
                let n = line.get_edges().len();
                let mut i: usize = 0;
                while i < n
                    invariant
                        i <= n,
                        n == lv.edges.len(),
                        line@ == lv,
                        m0.wf(),
                        self@.wf(),
                        self@ == line_taken_off(m0, id, lv.edges.take(i as int)),
                    decreases n - i,
                {
                    let e = line.get_edges()[i];
                    let ghost cur = self@;
                    proof {
                        assert(lv.edges.take(i + 1) =~= lv.edges.take(i as int).push(e));
                        if cur.edges.contains_key(e.0) {
                            assert(m0.edges.contains_key(e.0));
                            lemma_take_off_facts(m0, id, lv.edges.take(i as int), e.0);
                        }
                    }
                    let mut now_empty = false;
                    match self.get_mut_edge(e) {
                        Some(edge) => {
                            edge.remove_line(id);
                            now_empty = edge.get_lines().len() == 0;
                        },
                        None => {},
                    }
                    if now_empty {
                        proof {
                            lemma_take_off_drop(m0, id, lv.edges.take(i as int), e);
                        }
                        self.remove_edge(e);
                    } else {
                        proof {
                            if cur.edges.contains_key(e.0) {
                                lemma_take_off_keep(m0, id, lv.edges.take(i as int), e);
                                assert(self@.edges =~= line_taken_off(m0, id, lv.edges.take(i + 1)).edges);
                            } else {
                                lemma_take_off_skip(m0, id, lv.edges.take(i as int), e);
                            }
                        }
                    }
                    i = i + 1;
                }
                proof {
                    assert(lv.edges.take(n as int) =~= lv.edges);
                }
            },
        }
        proof {
            let o = old(self)@;
            let f = final(self)@;
            if o.lines.contains_key(id.0) {
                let m0 = MetroMapView { lines: o.lines.remove(id.0), ..o };
                let lv = o.lines[id.0];
                let d = emptied_edges(m0, id, lv.edges);
                if o.edges_attached() {
                    assert forall|k: u64| #[trigger] f.edges.contains_key(k) implies f.stations.contains_key(f.edges[k].from.0)
                        && f.stations.contains_key(f.edges[k].to.0) by {
                        assert(m0.edges.contains_key(k));
                    }
                }
                if o.lines_valid() {
                    assert forall|k: u64, j: int|
                        f.lines.contains_key(k) && 0 <= j < f.lines[k].edges.len()
                        implies f.edges.contains_key(#[trigger] f.lines[k].edges[j].0) by {
                        let orig = m0.lines[k].edges;
                        let y = f.lines[k].edges[j];
                        lemma_without_all_member(orig, d, y);
                        let q = choose|q: int| 0 <= q < orig.len() && #[trigger] orig[q] == y;
                        assert(o.lines[k].edges[q] == y);
                    }
                }
            }
        }
    }

    /// Notify that the given edge was taken off the line `from`: the edge is
    /// now used exactly by the other lines of the map that list it, and if
    /// there are none it is removed from the map.
    pub fn removed_edge(&mut self, id: EdgeID, from: LineID)
        requires
            old(self)@.wf(),
        ensures
            lines_using(old(self)@, id, from).len() == 0 ==> final(self)@ == without_edge(old(self)@, id.0),
            lines_using(old(self)@, id, from).len() != 0 ==> {
                &&& !old(self)@.edges.contains_key(id.0) ==> final(self)@ == old(self)@
                &&& old(self)@.edges.contains_key(id.0) ==> {
                    &&& final(self)@ == (MetroMapView {
                        edges: old(self)@.edges.insert(
                            id.0,
                            EdgeView { lines: final(self)@.edges[id.0].lines, ..old(self)@.edges[id.0] },
                        ),
                        ..old(self)@
                    })
                    &&& strictly_sorted_ids(final(self)@.edges[id.0].lines)
                    &&& final(self)@.edges[id.0].lines.to_set() == lines_using(old(self)@, id, from)
                }
            },
            lines_using(old(self)@, id, from).finite(),
            forall|k: u64| #[trigger]
                final(self)@.edges.contains_key(k) <==> old(self)@.edges.contains_key(k) && (k != id.0
                    || lines_using(old(self)@, id, from).len() != 0),
            forall|k: u64|
                k != id.0 && #[trigger] old(self)@.edges.contains_key(k) ==> final(self)@.edges[k]
                    == old(self)@.edges[k],
            final(self)@.lines.dom() == old(self)@.lines.dom(),
            forall|k: u64|
                k != from.0 && #[trigger] old(self)@.lines.contains_key(k) ==> final(self)@.lines[k]
                    == old(self)@.lines[k],
            forall|k: u64| #[trigger]
                final(self)@.edges.contains_key(k) ==> final(self)@.edges[k].from == old(self)@.edges[k].from
                    && final(self)@.edges[k].to == old(self)@.edges[k].to,
            final(self)@.wf(),
            old(self)@.edges_attached() ==> final(self)@.edges_attached(),
            old(self)@.lines_valid() ==> final(self)@.lines_valid(),
            station_places_kept(old(self)@, final(self)@),
    {
        let keys = self.line_ids();
        let ghost using = lines_using(self@, id, from);
        let mut found: Vec<LineID> = Vec::new();
        let ghost mut seen: Seq<LineID> = Seq::empty();
        let mut i: usize = 0;
        assert(keys@.take(0) =~= seen);
        while i < keys.len()
            invariant
                i <= keys@.len(),
                self@ == old(self)@,
                self@.wf(),
                using == lines_using(self@, id, from),
                keys@.no_duplicates(),
                forall|j: int| 0 <= j < keys@.len() ==> self@.lines.contains_key(#[trigger] keys@[j].0),
                forall|k: u64| self@.lines.contains_key(k) ==> keys@.contains(LineID(k)),
                seen == keys@.take(i as int),
                found@.no_duplicates(),
                forall|l: LineID| found@.contains(l) <==> (using.contains(l) && seen.contains(l)),
            decreases keys@.len() - i,
        {
            let k = keys[i];
            let ghost before = found@;
            let ghost seen_before = seen;
            proof {
                if seen.contains(k) {
                    let j = choose|j: int| 0 <= j < seen.len() && #[trigger] seen[j] == k;
                    assert(keys@[j] == keys@[i as int]);
                }
            }
            assert(self@.lines.contains_key(k.0));
            let ln = self.lines.get(&k.0).unwrap();
            assert(ln@.id == k);
            let take = ln.get_id() != from && crate::models::util::contains_edge_id(ln.get_edges(), id);
            assert(take <==> using.contains(k));
            if take {
                found.push(ln.get_id());
            }
            proof {
                seen = seen.push(k);
                assert forall|x: LineID| found@.contains(x) <==> (using.contains(x) && seen.contains(x)) by {
                    lemma_push_contains(seen_before, k, x);
                    assert(before.contains(x) <==> (using.contains(x) && seen_before.contains(x)));
                    if take {
                        lemma_push_contains(before, k, x);
                    } else {
                        if x == k {
                            assert(!using.contains(x));
                        }
                    }
                }
                if take {
                    assert forall|a: int, b: int| 0 <= a < b < found@.len() implies found@[a] != found@[b] by {
                        if b == before.len() {
                            assert(before.contains(found@[a]));
                        } else {
                            assert(before[a] != before[b]);
                        }
                    }
                }
                assert(keys@.take(i + 1) =~= seen);
            }
            i = i + 1;
        }
        proof {
            assert(keys@.take(keys@.len() as int) =~= keys@);
            assert(using =~= found@.to_set());
        }
        if found.len() == 0 {
            proof {
                assert(using =~= Set::<LineID>::empty());
            }
            let ghost before = self@;
            self.remove_edge(id);
            proof {
                if before.edges.contains_key(id.0) {
                    assert forall|k: u64| k != from.0 && #[trigger] before.lines.contains_key(k) implies self@.lines[k] == before.lines[k] by {
                        assert(before.lines[k].id == LineID(k));
                        assert(!using.contains(LineID(k)));
                        assert(!before.lines[k].edges.contains(id));
                        lemma_without_absent(before.lines[k].edges, id);
                    }
                }
            }
        } else {
            proof {
                assert(found@.contains(found@[0]));
                assert(using.contains(found@[0]));
            }
            let ghost fv = found@;
            match self.get_mut_edge(id) {
                Some(edge) => {
                    edge.set_lines(found);
                    proof {
                        broadcast use vstd::seq_lib::group_to_multiset_ensures;
                        let nl = edge@.lines;
                        assert forall|l: LineID| nl.to_set().contains(l) <==> fv.to_set().contains(l) by {
                            assert(nl.contains(l) <==> nl.to_multiset().count(l) > 0);
                            assert(fv.contains(l) <==> fv.to_multiset().count(l) > 0);
                        }
                        assert(nl.to_set() =~= using);
                    }
                },
                None => {},
            }
        }
    }

    /// Replace the nodes of the map's edges by those of the given edges, in
    /// order. At the first given edge that the map does not have, this stops
    /// with an error; the edges before it have been updated.
    pub fn update_edges(&mut self, edges: Vec<Edge>) -> (r: Result<(), Error>)
        ensures
            ({
                let us = edges@.map_values(|e: Edge| e@);
                let j = first_missing(old(self)@, us, 0);
                &&& r is Ok <==> j == us.len()
                &&& final(self)@ == nodes_updated(old(self)@, us.take(j))
            }),
            old(self)@.wf() ==> final(self)@.wf(),
            old(self)@.edges_attached() ==> final(self)@.edges_attached(),
            old(self)@.lines_valid() ==> final(self)@.lines_valid(),
            station_places_kept(old(self)@, final(self)@),
    {
        proof {
            lemma_nodes_updated_keeps(old(self)@, edges@.map_values(|e: Edge| e@));
        }
        let ghost us = edges@.map_values(|e: Edge| e@);
        let mut i: usize = 0;
        proof {
            assert(us.take(0) =~= Seq::<EdgeView>::empty());
        }
        while i < edges.len()
            invariant
                i <= edges@.len(),
                us == edges@.map_values(|e: Edge| e@),
                first_missing(old(self)@, us, 0) == first_missing(old(self)@, us, i as int),
                self@ == nodes_updated(old(self)@, us.take(i as int)),
                self@.edges.dom() == old(self)@.edges.dom(),
                old(self)@.wf() ==> self@.wf(),
                old(self)@.edges_attached() ==> self@.edges_attached(),
                old(self)@.lines_valid() ==> self@.lines_valid(),
                forall|j: int|
                    0 <= j <= us.len() ==> {
                        let f = #[trigger] nodes_updated(old(self)@, us.take(j));
                        &&& old(self)@.wf() ==> f.wf()
                        &&& old(self)@.edges_attached() ==> f.edges_attached()
                        &&& old(self)@.lines_valid() ==> f.lines_valid()
                        &&& station_places_kept(old(self)@, f)
                    },
                station_places_kept(old(self)@, self@),
            decreases edges@.len() - i,
        {
            let id = edges[i].get_id();
            let nodes = crate::models::util::copy_slice(edges[i].get_nodes());
            proof {
                assert(us.take(i + 1).drop_last() =~= us.take(i as int));
                assert(us.take(i + 1).last() == us[i as int]);
            }
            match self.get_mut_edge(id) {
                Some(existing) => {
                    existing.set_nodes(nodes);
                    proof {
                        assert(self@ == nodes_updated(old(self)@, us.take(i + 1)));
                    }
                },
                None => {
                    return Err(Error::other("edge not found when updating edge"));
                },
            }
            i = i + 1;
        }
        proof {
            assert(us.take(us.len() as int) =~= us);
        }
        Ok(())
    }

    /// The line with the given id; if there is none, an empty line with that
    /// id is added first.
    pub fn get_or_add_line(&mut self, id: LineID) -> (r: &Line)
        requires
            old(self)@.wf(),
        ensures
            old(self)@.lines.contains_key(id.0) ==> final(self)@ == old(self)@,
            !old(self)@.lines.contains_key(id.0) ==> final(self)@ == (MetroMapView {
                lines: old(self)@.lines.insert(id.0, empty_line_view(id)),
                ..old(self)@
            }),
            final(self)@.lines.contains_key(id.0),
            r@ == final(self)@.lines[id.0],
            final(self)@.wf(),
            old(self)@.edges_attached() ==> final(self)@.edges_attached(),
            old(self)@.lines_valid() ==> final(self)@.lines_valid(),
            station_places_kept(old(self)@, final(self)@),
    {
        if !self.lines.contains_key(&id.0) {
            let line = Line::from_parts(id, "", (0, 0, 0), Vec::new(), Vec::new());
            proof {
                reveal_strlit("");
            }
            assert(line@.name =~= Seq::<char>::empty());
            assert(line@.stations =~= Seq::<StationID>::empty());
            assert(line@.edges =~= Seq::<EdgeID>::empty());
            assert(line@ == empty_line_view(id));
            self.lines.insert(id.0, line);
            assert(self@.lines =~= old(self)@.lines.insert(id.0, empty_line_view(id)));
        }
        assert(self@.lines.contains_key(id.0));
        self.lines.get(&id.0).unwrap()
    }

    /// The id of the edge that joins the two stations; if there is none, a
    /// new edge from `from` to `to` is made (with the next id of `ids`) and
    /// added.
    pub fn get_edge_id_between(&mut self, from: StationID, to: StationID, ids: &mut IDManager) -> (r: EdgeID)
        requires
            old(self)@.wf(),
            old(self)@.has_edge_between(from, to) || (old(self)@.stations.contains_key(from.0)
                && old(self)@.stations.contains_key(to.0)),
        ensures
            old(self)@.has_edge_between(from, to) ==> {
                &&& final(self)@ == old(self)@
                &&& *final(ids) == *old(ids)
                &&& final(self)@.edges.contains_key(r.0)
                &&& connects(final(self)@.edges[r.0], from, to)
            },
            !old(self)@.has_edge_between(from, to) ==> {
                &&& r.0 == old(ids).edge_counter()
                &&& final(ids).edge_counter() == successor(old(ids).edge_counter())
                &&& final(ids).station_counter() == old(ids).station_counter()
                &&& final(ids).line_counter() == old(ids).line_counter()
                &&& final(self)@ == with_edge(old(self)@, new_edge_view(r, from, to))
            },
            final(self)@.wf(),
            final(self)@.edges.contains_key(r.0),
            connects(final(self)@.edges[r.0], from, to),
            fresh_edge_ids(old(self)@, *old(ids)) && old(ids).edge_counter() < u64::MAX ==> {
                &&& fresh_edge_ids(final(self)@, *final(ids))
                &&& final(ids).edge_counter() <= old(ids).edge_counter() + 1
                &&& forall|k: u64| #[trigger]
                    old(self)@.edges.contains_key(k) ==> final(self)@.edges.contains_key(k)
                        && final(self)@.edges[k] == old(self)@.edges[k]
            },
            old(self)@.edges_attached() ==> final(self)@.edges_attached(),
            old(self)@.lines_valid() ==> final(self)@.lines_valid(),
            station_places_kept(old(self)@, final(self)@),
    {
        match self.get_edge_id_between_if_exists(from, to) {
            Some(e) => e,
            None => {
                let new = Edge::new(from, to, None, ids);
                let new_id = new.get_id();
                assert(new@ == new_edge_view(new_id, from, to));
                self.add_edge(new);
                new_id
            },
        }
    }

    /// The station located on the given grid node, if any.
    pub fn station_at_node(&self, node: GridNode) -> (r: Option<StationID>)
        requires
            self@.wf(),
        ensures
            match r {
                Some(id) => self@.stations.contains_key(id.0) && self@.stations[id.0].pos == node,
                None => forall|k: u64| #[trigger]
                    self@.stations.contains_key(k) ==> self@.stations[k].pos != node,
            },
    {
        let keys = keys_of(&self.stations);
        let mut i: usize = 0;
        while i < keys.len()
            invariant
                i <= keys@.len(),
                self@.wf(),
                forall|j: int| 0 <= j < keys@.len() ==> self@.stations.contains_key(#[trigger] keys@[j]),
                keys@.to_set() == self@.stations.dom(),
                forall|j: int| 0 <= j < i ==> self@.stations[#[trigger] keys@[j]].pos != node,
            decreases keys@.len() - i,
        {
            let k = keys[i];
            match self.stations.get(&k) {
                Some(st) => {
                    if st.get_pos() == node {
                        return Some(st.get_id());
                    }
                },
                None => {},
            }
            i = i + 1;
        }
        proof {
            assert forall|k: u64| #[trigger] self@.stations.contains_key(k) implies self@.stations[k].pos != node by {
                assert(keys@.to_set().contains(k));
                let j = choose|j: int| 0 <= j < keys@.len() && #[trigger] keys@[j] == k;
            }
        }
        None
    }

    /// All stations on the map, each once, in no particular order.
    pub fn get_stations(&self) -> (r: Vec<&Station>)
        requires
            self@.wf(),
        ensures
            r@.len() == self@.stations.dom().len(),
            forall|i: int| 0 <= i < r@.len() ==> {
                &&& self@.stations.contains_key((#[trigger] r@[i])@.id.0)
                &&& self@.stations[r@[i]@.id.0] == r@[i]@
            },
            forall|i: int, j: int| 0 <= i < j < r@.len() ==> r@[i]@.id != r@[j]@.id,
    {
        let keys = keys_of(&self.stations);
        assert(self@.stations.dom() =~= self.stations@.dom());
        let mut out: Vec<&Station> = Vec::new();
        let mut i: usize = 0;
        while i < keys.len()
            invariant
                i <= keys@.len(),
                self@.wf(),
                keys@.no_duplicates(),
                forall|j: int| 0 <= j < keys@.len() ==> self@.stations.contains_key(#[trigger] keys@[j]),
                out@.len() == i,
                forall|j: int| 0 <= j < i ==> (#[trigger] out@[j])@ == self@.stations[keys@[j]],
            decreases keys@.len() - i,
        {
            let k = keys[i];
            match self.stations.get(&k) {
                Some(st) => out.push(st),
                None => {
                    assert(false);
                },
            }
            i = i + 1;
        }
        proof {
            keys@.unique_seq_to_set();
            assert forall|a: int, b: int| 0 <= a < b < out@.len() implies out@[a]@.id != out@[b]@.id by {
                assert(keys@[a] != keys@[b]);
            }
        }
        out
    }

    /// All lines on the map, each once, in no particular order.
    pub fn get_lines(&self) -> (r: Vec<&Line>)
        requires
            self@.wf(),
        ensures
            r@.len() == self@.lines.dom().len(),
            forall|i: int| 0 <= i < r@.len() ==> {
                &&& self@.lines.contains_key((#[trigger] r@[i])@.id.0)
                &&& self@.lines[r@[i]@.id.0] == r@[i]@
            },
            forall|i: int, j: int| 0 <= i < j < r@.len() ==> r@[i]@.id != r@[j]@.id,
    {
        let keys = keys_of(&self.lines);
        assert(self@.lines.dom() =~= self.lines@.dom());
        let mut out: Vec<&Line> = Vec::new();
        let mut i: usize = 0;
        while i < keys.len()
            invariant
                i <= keys@.len(),
                self@.wf(),
                keys@.no_duplicates(),
                forall|j: int| 0 <= j < keys@.len() ==> self@.lines.contains_key(#[trigger] keys@[j]),
                out@.len() == i,
                forall|j: int| 0 <= j < i ==> (#[trigger] out@[j])@ == self@.lines[keys@[j]],
            decreases keys@.len() - i,
        {
            let k = keys[i];
            match self.lines.get(&k) {
                Some(l) => out.push(l),
                None => {
                    assert(false);
                },
            }
            i = i + 1;
        }
        proof {
            keys@.unique_seq_to_set();
            assert forall|a: int, b: int| 0 <= a < b < out@.len() implies out@[a]@.id != out@[b]@.id by {
                assert(keys@[a] != keys@[b]);
            }
        }
        out
    }

    /// All edges on the map, each once, in no particular order.
    pub fn get_edges(&self) -> (r: Vec<&Edge>)
        requires
            self@.wf(),
        ensures
            r@.len() == self@.edges.dom().len(),
            forall|i: int| 0 <= i < r@.len() ==> {
                &&& self@.edges.contains_key((#[trigger] r@[i])@.id.0)
                &&& self@.edges[r@[i]@.id.0] == r@[i]@
            },
            forall|i: int, j: int| 0 <= i < j < r@.len() ==> r@[i]@.id != r@[j]@.id,
    {
        let keys = keys_of(&self.edges);
        assert(self@.edges.dom() =~= self.edges@.dom());
        let mut out: Vec<&Edge> = Vec::new();
        let mut i: usize = 0;
        while i < keys.len()
            invariant
                i <= keys@.len(),
                self@.wf(),
                keys@.no_duplicates(),
                forall|j: int| 0 <= j < keys@.len() ==> self@.edges.contains_key(#[trigger] keys@[j]),
                out@.len() == i,
                forall|j: int| 0 <= j < i ==> (#[trigger] out@[j])@ == self@.edges[keys@[j]],
            decreases keys@.len() - i,
        {
            let k = keys[i];
            match self.edges.get(&k) {
                Some(e) => out.push(e),
                None => {
                    assert(false);
                },
            }
            i = i + 1;
        }
        proof {
            keys@.unique_seq_to_set();
            assert forall|a: int, b: int| 0 <= a < b < out@.len() implies out@[a]@.id != out@[b]@.id by {
                assert(keys@[a] != keys@[b]);
            }
        }
        out
    }

    /// The edge located on the given grid node, if any: one whose nodes
    /// include it or one of whose end stations stands on it.
    pub fn edge_at_node(&self, node: GridNode) -> (r: Option<EdgeID>)
        requires
            self@.wf(),
        ensures
            match r {
                Some(id) => self@.edges.contains_key(id.0) && edge_visits(self@, self@.edges[id.0], node),
                None => forall|k: u64| #[trigger]
                    self@.edges.contains_key(k) ==> !edge_visits(self@, self@.edges[k], node),
            },
    {
        let keys = keys_of(&self.edges);
        let mut i: usize = 0;
        while i < keys.len()
            invariant
                i <= keys@.len(),
                self@.wf(),
                forall|j: int| 0 <= j < keys@.len() ==> self@.edges.contains_key(#[trigger] keys@[j]),
                keys@.to_set() == self@.edges.dom(),
                forall|j: int| 0 <= j < i ==> !edge_visits(self@, self@.edges[#[trigger] keys@[j]], node),
            decreases keys@.len() - i,
        {
            let k = keys[i];
            assert(self@.edges.contains_key(k));
            let e = self.edges.get(&k).unwrap();
            assert(e@ == self@.edges[k]);
            if e.visits_node(self, node) {
                return Some(e.get_id());
            }
            i = i + 1;
        }
        proof {
            assert forall|k: u64| #[trigger] self@.edges.contains_key(k) implies !edge_visits(self@, self@.edges[k], node) by {
                assert(keys@.to_set().contains(k));
                let j = choose|j: int| 0 <= j < keys@.len() && #[trigger] keys@[j] == k;
            }
        }
        None
    }

    /// The id of some edge that joins the two stations, in either direction,
    /// if there is one.
    pub fn get_edge_id_between_if_exists(&self, from: StationID, to: StationID) -> (r: Option<EdgeID>)
        requires
            self@.wf(),
        ensures
            match r {
                Some(id) => self@.edges.contains_key(id.0) && connects(self@.edges[id.0], from, to),
                None => !self@.has_edge_between(from, to),
            },
    {
        let keys = keys_of(&self.edges);
        let mut i: usize = 0;
        while i < keys.len()
            invariant
                i <= keys@.len(),
                self@.wf(),
                forall|j: int| 0 <= j < keys@.len() ==> self@.edges.contains_key(#[trigger] keys@[j]),
                keys@.to_set() == self@.edges.dom(),
                forall|j: int| 0 <= j < i ==> !connects(self@.edges[#[trigger] keys@[j]], from, to),
            decreases keys@.len() - i,
        {
            let k = keys[i];
            assert(self@.edges.contains_key(k));
            match self.edges.get(&k) {
                Some(e) => {
                    assert(e@ == self@.edges[k]);
                    if (e.is_from(from) && e.is_to(to)) || (e.is_from(to) && e.is_to(from)) {
                        return Some(e.get_id());
                    }
                },
                None => {},
            }
            i = i + 1;
        }
        proof {
            if self@.has_edge_between(from, to) {
                let k = choose|k: u64| #[trigger] self@.edges.contains_key(k) && connects(self@.edges[k], from, to);
                assert(keys@.to_set().contains(k));
                let j = choose|j: int| 0 <= j < keys@.len() && #[trigger] keys@[j] == k;
            }
        }
        None
    }
}

/// Taking a station off every line: with `left` lines still to go, the
/// edge ids that are left suffice for the line that goes next.
proof fn lemma_budget_step(c: int, c1: int, left: int, a: int, b: int, max: int)
    requires
        left >= 1,
        a >= 0,
        b >= 0,
        c1 <= c + a * a,
        c + left * (a * a) < max,
        c + left * (b * b) < max,
    ensures
        c1 + (left - 1) * (b * b) < max,
{
    assert(a * a >= 0 && b * b >= 0) by (nonlinear_arith)
        requires
            a >= 0,
            b >= 0,
    ;
    if a * a <= b * b {
        assert(a * a + (left - 1) * (b * b) <= left * (b * b)) by (nonlinear_arith)
            requires
                a * a <= b * b,
                left >= 1,
        ;
    } else {
        assert(a * a + (left - 1) * (b * b) <= left * (a * a)) by (nonlinear_arith)
            requires
                b * b < a * a,
                left >= 1,
        ;
    }
}

impl MetroMap {
    /// Remove a station from the map: it is first taken off every line of
    /// the map (see [`Line::remove_station`]; new edges get ids from `ids`),
    /// then the station itself is removed.
    pub fn remove_station(&mut self, id: StationID, ids: &mut IDManager)
        requires
            old(self)@.wf(),
            old(self)@.edges_attached(),
            old(self)@.lines_valid(),
            forall|k: u64| #[trigger] old(self)@.lines.contains_key(k) ==> old(self)@.lines[k].edges.no_duplicates(),
            fresh_edge_ids(old(self)@, *old(ids)),
            forall|k: u64| #[trigger]
                old(self)@.lines.contains_key(k) ==> old(ids).edge_counter() + old(self)@.lines.dom().len() * (
                old(self)@.lines[k].edges.len() * old(self)@.lines[k].edges.len()) < u64::MAX,
        ensures
            final(self)@.stations.dom() == old(self)@.stations.dom().remove(id.0),
            forall|k: u64| #[trigger] final(self)@.stations.contains_key(k) ==> final(self)@.stations[k]
                == (StationView { edges: final(self)@.stations[k].edges, ..old(self)@.stations[k] }),
            forall|k: u64| #[trigger]
                old(self)@.edges.contains_key(k) && !touches(old(self)@, EdgeID(k), id) ==> final(self)@.edges.contains_key(k)
                    && same_but_lines(old(self)@.edges[k], final(self)@.edges[k]),
            final(self)@.lines.dom() == old(self)@.lines.dom(),
            forall|k: u64| #[trigger] old(self)@.lines.contains_key(k) ==> {
                &&& final(self)@.lines[k].id == old(self)@.lines[k].id
                &&& final(self)@.lines[k].name == old(self)@.lines[k].name
                &&& final(self)@.lines[k].color == old(self)@.lines[k].color
                &&& old(self)@.lines[k].stations.remove_value(id).is_prefix_of(final(self)@.lines[k].stations)
                &&& final(self)@.lines[k].edges.no_duplicates()
            },
            forall|k: u64| #[trigger] old(self)@.lines.contains_key(k) ==> line_rejoined(old(self)@, final(self)@, k, id),
            final(self)@.wf(),
            final(self)@.lines_valid(),
            fresh_edge_ids(final(self)@, *final(ids)),
    {
        let ghost m0 = self@;
        let keys = self.line_ids();
        proof {
            let ks = keys@.map_values(|l: LineID| l.0);
            assert forall|a: int, b: int| 0 <= a < b < ks.len() implies ks[a] != ks[b] by {
                assert(keys@[a] != keys@[b]);
            }
            assert forall|k: u64| ks.to_set().contains(k) == m0.lines.dom().contains(k) by {
                if m0.lines.contains_key(k) {
                    assert(keys@.contains(LineID(k)));
                    let q = choose|q: int| 0 <= q < keys@.len() && keys@[q] == LineID(k);
                    assert(ks[q] == k);
                }
                if ks.to_set().contains(k) {
                    assert(ks.contains(k));
                    let q = choose|q: int| 0 <= q < ks.len() && #[trigger] ks[q] == k;
                    assert(m0.lines.contains_key(keys@[q].0));
                }
            }
            ks.unique_seq_to_set();
            assert(ks.to_set() =~= m0.lines.dom());
        }
        proof {
            lemma_finitely_many_lines(self);
        }
        let ghost total = keys@.len();
        let ghost c0 = ids.edge_counter();
        let mut i: usize = 0;
        while i < keys.len()
            invariant
                i <= keys@.len(),
                total == keys@.len(),
                total == m0.lines.dom().len(),
                keys@.no_duplicates(),
                forall|q: int| 0 <= q < keys@.len() ==> m0.lines.contains_key(#[trigger] keys@[q].0),
                forall|k: u64| m0.lines.contains_key(k) ==> keys@.contains(LineID(k)),
                m0.wf(),
                self@.wf(),
                self@.edges_attached(),
                self@.lines_valid(),
                fresh_edge_ids(self@, *ids),
                self@.stations.dom() == m0.stations.dom(),
                forall|k: u64| #[trigger] m0.stations.contains_key(k) ==> self@.stations[k]
                    == (StationView { edges: self@.stations[k].edges, ..m0.stations[k] }),
                forall|k: u64| #[trigger]
                    m0.edges.contains_key(k) && !touches(m0, EdgeID(k), id) ==> self@.edges.contains_key(k)
                        && same_but_lines(m0.edges[k], self@.edges[k]),
                self@.lines.dom() == m0.lines.dom(),
                forall|q: int| i <= q < keys@.len() ==> self@.lines[#[trigger] keys@[q].0] == m0.lines[keys@[q].0],
                forall|q: int| 0 <= q < i ==> {
                    let k = #[trigger] keys@[q].0;
                    &&& self@.lines[k].id == m0.lines[k].id
                    &&& self@.lines[k].name == m0.lines[k].name
                    &&& self@.lines[k].color == m0.lines[k].color
                    &&& m0.lines[k].stations.remove_value(id).is_prefix_of(self@.lines[k].stations)
                    &&& self@.lines[k].edges.no_duplicates()
                },
                forall|k: u64| #[trigger] m0.lines.contains_key(k) ==> m0.lines[k].edges.no_duplicates(),
                m0.lines_valid(),
                m0.lines.dom().finite(),
                forall|q: int| 0 <= q < i ==> line_rejoined(m0, self@, #[trigger] keys@[q].0, id),
                forall|q: int, t: int|
                    #![trigger m0.lines[keys@[q].0].edges[t]]
                    i <= q < keys@.len() && 0 <= t < m0.lines[keys@[q].0].edges.len() ==> self@.edges.contains_key(
                        m0.lines[keys@[q].0].edges[t].0,
                    ) && self@.edges[m0.lines[keys@[q].0].edges[t].0].from == m0.edges[m0.lines[keys@[q].0].edges[t].0].from
                        && self@.edges[m0.lines[keys@[q].0].edges[t].0].to == m0.edges[m0.lines[keys@[q].0].edges[t].0].to,
                forall|q: int| i <= q < keys@.len() ==> ids.edge_counter() + (total - i) * (
                    m0.lines[#[trigger] keys@[q].0].edges.len() * m0.lines[keys@[q].0].edges.len()) < u64::MAX,
            decreases keys@.len() - i,
        {
            let k = keys[i];
            let ghost before = self@;
            let ghost c_before = ids.edge_counter();
            assert(before.lines[k.0] == m0.lines[k.0]);
            let mut line = self.get_line(k).unwrap().clone();
            proof {
                assert(line_edges_in(before, line@)) by {
                    assert forall|t: int| 0 <= t < line@.edges.len() implies before.edges.contains_key(#[trigger] line@.edges[t].0) by {
                        assert(before.lines[k.0].edges[t] == line@.edges[t]);
                    }
                }
                let n = line@.edges.len();
                assert(c_before + (total - i) * (n * n) < u64::MAX);
                assert(c_before + n * n < u64::MAX) by (nonlinear_arith)
                    requires
                        c_before + (total - i) * (n * n) < u64::MAX,
                        total - i >= 1,
                        n * n >= 0,
                ;
            }
            let ghost l0 = line@;
            line.remove_station(self, id, ids);
            let ghost mid = self@;
            let ghost lv = line@;
            self.add_line(line);
            proof {
                let f = self@;
                lemma_station_removed_step(m0, before, mid, f, keys@, i as int, id, l0, lv);
                assert(m0.lines[k.0].id == k);
                assert(lv.id == k);
                assert forall|q: int| i + 1 <= q < keys@.len() implies f.lines[#[trigger] keys@[q].0] == m0.lines[keys@[q].0] by {
                    assert(keys@[q] != keys@[i as int]);
                    assert(before.lines[keys@[q].0] == m0.lines[keys@[q].0]);
                    assert(mid.lines[keys@[q].0] == before.lines[keys@[q].0]);
                }
                assert forall|q: int| 0 <= q < i + 1 implies {
                    let kk = #[trigger] keys@[q].0;
                    &&& f.lines[kk].id == m0.lines[kk].id
                    &&& f.lines[kk].name == m0.lines[kk].name
                    &&& f.lines[kk].color == m0.lines[kk].color
                    &&& m0.lines[kk].stations.remove_value(id).is_prefix_of(f.lines[kk].stations)
                    &&& f.lines[kk].edges.no_duplicates()
                } by {
                    if q < i {
                        assert(keys@[q] != keys@[i as int]);
                        assert(mid.lines[keys@[q].0] == before.lines[keys@[q].0]);
                    }
                }
                assert(f.lines.dom() =~= m0.lines.dom());
                assert forall|q: int| i + 1 <= q < keys@.len() implies ids.edge_counter() + (total - (i + 1)) * (
                    m0.lines[#[trigger] keys@[q].0].edges.len() * m0.lines[keys@[q].0].edges.len()) < u64::MAX by {
                    let a = m0.lines[k.0].edges.len() as int;
                    let b = m0.lines[keys@[q].0].edges.len() as int;
                    assert(c_before + (total - i) * (a * a) < u64::MAX);
                    lemma_budget_step(c_before as int, ids.edge_counter() as int, total - i, a, b, u64::MAX as int);
                }
                assert forall|kk: u64| #[trigger] m0.stations.contains_key(kk) implies f.stations[kk]
                    == StationView { edges: f.stations[kk].edges, ..m0.stations[kk] } by {
                    assert(before.stations.contains_key(kk));
                    assert(mid.stations.contains_key(kk));
                }
                assert forall|kk: u64| #[trigger]
                    m0.edges.contains_key(kk) && !touches(m0, EdgeID(kk), id) implies f.edges.contains_key(kk)
                        && same_but_lines(m0.edges[kk], f.edges[kk]) by {
                    assert(before.edges.contains_key(kk));
                    assert(!touches(before, EdgeID(kk), id));
                    assert(mid.edges.contains_key(kk));
                }
            }
            i = i + 1;
        }
        let ghost before = self@;
        self.stations.remove(&id.0);
        proof {
            let f = self@;
            assert(f.stations =~= before.stations.remove(id.0));
            assert(f.lines == before.lines);
            assert(f.edges == before.edges);
            assert forall|k: u64| #[trigger] m0.lines.contains_key(k) implies line_rejoined(m0, f, k, id) by {
                assert(keys@.contains(LineID(k)));
                let q = choose|q: int| 0 <= q < keys@.len() && keys@[q] == LineID(k);
                assert(keys@[q].0 == k);
                lemma_rejoined_same_edges(m0, before, f, k, id);
            }
            assert forall|k: u64| #[trigger] m0.lines.contains_key(k) implies {
                &&& f.lines[k].id == m0.lines[k].id
                &&& f.lines[k].name == m0.lines[k].name
                &&& f.lines[k].color == m0.lines[k].color
                &&& m0.lines[k].stations.remove_value(id).is_prefix_of(f.lines[k].stations)
                &&& f.lines[k].edges.no_duplicates()
            } by {
                assert(keys@.contains(LineID(k)));
                let q = choose|q: int| 0 <= q < keys@.len() && keys@[q] == LineID(k);
                assert(keys@[q].0 == k);
            }
            assert forall|k: u64| #[trigger] f.stations.contains_key(k) implies f.stations[k].id.0 == k by {
                assert(before.stations.contains_key(k));
            }
        }
    }
}

/// A station written to the map reads back as written, and the other
/// stations are untouched.
pub proof fn lemma_station_read_after_write(m: MetroMapView, station: StationView, k: u64)
    ensures
        with_station(m, station).stations.contains_key(station.id.0),
        with_station(m, station).stations[station.id.0] == station,
        k != station.id.0 ==> (with_station(m, station).stations.contains_key(k) == m.stations.contains_key(k)
            && with_station(m, station).stations[k] == m.stations[k]),
        with_station(m, station).edges == m.edges,
        with_station(m, station).lines == m.lines,
{
}

/// Removing an edge that was just added gives back the map, where no
/// station and no line listed the edge's id before.
pub proof fn lemma_remove_undoes_add_edge(m: MetroMapView, e: EdgeView)
    requires
        !m.edges.contains_key(e.id.0),
        m.stations.contains_key(e.from.0),
        m.stations.contains_key(e.to.0),
        forall|k: u64| #[trigger] m.stations.contains_key(k) ==> !m.stations[k].edges.contains(e.id),
        forall|k: u64| #[trigger] m.lines.contains_key(k) ==> !m.lines[k].edges.contains(e.id),
    ensures
        without_edge(with_edge(m, e), e.id.0) == m,
{
    let w = with_edge(m, e);
    let r = without_edge(w, e.id.0);
    let id = e.id;
    assert(w.edges.contains_key(id.0));
    assert(w.edges[id.0] == e);
    let f = m.stations[e.from.0];
    let t = m.stations[e.to.0];
    lemma_without_absent(f.edges, id);
    lemma_without_absent(t.edges, id);
    assert(f.edges.push(id).drop_last() =~= f.edges);
    assert(t.edges.push(id).drop_last() =~= t.edges);
    assert(seq_without(f.edges.push(id), id) =~= f.edges);
    assert(seq_without(t.edges.push(id), id) =~= t.edges);
    assert(!f.edges.contains(id));
    assert(push_once(f.edges, id) == f.edges.push(id));
    if e.from != e.to {
        assert(push_once(t.edges, id) == t.edges.push(id));
        lemma_without_absent(t.edges, id);
    } else {
        assert(f.edges.push(id).contains(id)) by {
            assert(f.edges.push(id)[f.edges.len() as int] == id);
        }
        assert(push_once(f.edges.push(id), id) == f.edges.push(id));
        assert(seq_without(f.edges, id) == f.edges);
    }
    assert(r.stations =~= m.stations);
    assert forall|k: u64| #[trigger] m.lines.contains_key(k) implies r.lines[k] == m.lines[k] by {
        lemma_without_absent(m.lines[k].edges, id);
    }
    assert(r.lines =~= m.lines);
    assert(r.edges =~= m.edges);
}

impl MetroMap {
    /// Tell the map that the line `from` no longer uses the edge `id` (see
    /// [`MetroMap::removed_edge`]), with the outcome summed up as
    /// [`edge_taken_off`].
    pub(crate) fn take_off_edge(&mut self, id: EdgeID, from: LineID)
        requires
            old(self)@.wf(),
        ensures
            edge_taken_off(old(self)@, final(self)@, id, from),
            forall|k: u64| #[trigger] final(self)@.edges.contains_key(k) ==> old(self)@.edges.contains_key(k),
            final(self)@.wf(),
            old(self)@.edges_attached() ==> final(self)@.edges_attached(),
            old(self)@.lines_valid() ==> final(self)@.lines_valid(),
            station_places_kept(old(self)@, final(self)@),
    {
        self.removed_edge(id, from);
        proof {
            reveal(edge_taken_off);
        }
    }
}

} // verus!
