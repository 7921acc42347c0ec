//! Contains the [`Line`] struct and its methods.
use vstd::prelude::*;

use super::ids::{
    successor,
    EdgeID,
    IDManager,
    LineID,
    StationID,
};
use itertools::Itertools;

use super::edge::{
    lines_with,
    EdgeView,
};
use super::grid_node::GridNode;
use super::map::{
    fresh_edge_ids,
    lemma_push_contains,
    lemma_push_once_contains,
    edge_taken_off,
    lines_using,
    new_edge_view,
    with_edge,
    without_edge,
    connects,
    push_once,
    station_places_kept,
    MetroMap,
    MetroMapView,
};
use super::station::seq_without;
use super::util::{
    contains_edge_id,
    copy_vec,
};

verus! {

/// What a [`Line`] holds.
pub struct LineView {
    pub id: LineID,
    pub name: Seq<char>,
    pub color: (u8, u8, u8),
    pub stations: Seq<StationID>,
    pub edges: Seq<EdgeID>,
}

/// Represents a metro line, including its stations, edges, name and color.
#[derive(Debug)]
pub struct Line {
    /// ID of the line.
    id: LineID,
    /// Name of the line.
    name: String,
    /// Color of the line.
    color: (u8, u8, u8),
    /// All stations the line visits.
    stations: Vec<StationID>,
    /// All edges between the stations.
    edges: Vec<EdgeID>,
}

impl View for Line {
    type V = LineView;

    closed spec fn view(&self) -> LineView {
        LineView {
            id: self.id,
            name: self.name@,
            color: self.color,
            stations: self.stations@,
            edges: self.edges@,
        }
    }
}

impl Line {
    /// Create a new [`Line`] without stations or edges, black and without a
    /// name. If `id` is `None` the next line id is taken from `ids`.
    pub fn new(id: Option<LineID>, ids: &mut IDManager) -> (r: Self)
        ensures
            r@.name == Seq::<char>::empty(),
            r@.color == (0u8, 0u8, 0u8),
            r@.stations == Seq::<StationID>::empty(),
            r@.edges == Seq::<EdgeID>::empty(),
            match id {
                Some(given) => r@.id == given && *final(ids) == *old(ids),
                None => {
                    &&& r@.id.0 == old(ids).line_counter()
                    &&& final(ids).line_counter() == successor(old(ids).line_counter())
                    &&& final(ids).station_counter() == old(ids).station_counter()
                    &&& final(ids).edge_counter() == old(ids).edge_counter()
                },
            },
    {
        let new_id = match id {
            Some(given) => given,
            None => ids.next_line_id(),
        };
        Line {
            edges: Vec::new(),
            stations: Vec::new(),
            id: new_id,
            color: (0, 0, 0),
            name: String::new(),
        }
    }

    /// A line with exactly the given parts.
    pub fn from_parts(
        id: LineID,
        name: &str,
        color: (u8, u8, u8),
        stations: Vec<StationID>,
        edges: Vec<EdgeID>,
    ) -> (r: Self)
        ensures
            r@ == (LineView { id, name: name@, color, stations: stations@, edges: edges@ }),
    {
        Line { id, name: name.to_owned(), color, stations, edges }
    }

    /// A getter for the stations the line visits.
    pub fn get_stations(&self) -> (r: &[StationID])
        ensures
            r@ == self@.stations,
    {
        self.stations.as_slice()
    }

    /// A mutable getter for the stations the line visits.
    pub fn get_mut_stations(&mut self) -> (r: &mut [StationID])
        ensures
            r@ == old(self)@.stations,
            final(self)@ == (LineView { stations: final(r)@, ..old(self)@ }),
    {
        self.stations.as_mut_slice()
    }

    /// Remove every occurrence of an edge from the line, without further
    /// removal of it from the map or the adjacent stations.
    pub fn remove_edge_raw(&mut self, edge_id: EdgeID)
        ensures
            final(self)@ == (LineView { edges: seq_without(old(self)@.edges, edge_id), ..old(self)@ }),
    {
        let mut kept: Vec<EdgeID> = Vec::new();
        let mut i: usize = 0;
        assert(self.edges@.take(0) =~= Seq::<EdgeID>::empty());
        while i < self.edges.len()
            invariant
                i <= self.edges@.len(),
                self@ == old(self)@,
                kept@ == seq_without(self.edges@.take(i as int), edge_id),
            decreases self.edges@.len() - i,
        {
            let e = self.edges[i];
            proof {
                assert(self.edges@.take(i + 1).drop_last() =~= self.edges@.take(i as int));
            }
            if e != edge_id {
                kept.push(e);
            }
            i = i + 1;
        }
        assert(self.edges@.take(self.edges@.len() as int) =~= self.edges@);
        self.edges = kept;
    }

    /// A setter for the line's color.
    pub fn set_color(&mut self, color: (u8, u8, u8))
        ensures
            final(self)@ == (LineView { color: color, ..old(self)@ }),
    {
        self.color = color;
    }

    /// A getter for the line's color.
    pub fn get_color(&self) -> (r: (u8, u8, u8))
        ensures
            r == self@.color,
    {
        self.color
    }

    /// A setter for the line's name.
    pub fn set_name(&mut self, name: &str)
        ensures
            final(self)@ == (LineView { name: name@, ..old(self)@ }),
    {
        self.name = name.to_owned();
    }

    /// A getter for the line's name.
    pub fn get_name(&self) -> (r: &str)
        ensures
            r@ == self@.name,
    {
        self.name.as_str()
    }

    /// A getter for the line id.
    pub fn get_id(&self) -> (r: LineID)
        ensures
            r == self@.id,
    {
        self.id
    }

    /// A getter for the edges the line uses.
    pub fn get_edges(&self) -> (r: &[EdgeID])
        ensures
            r@ == self@.edges,
    {
        self.edges.as_slice()
    }
}

/// Every edge that the line uses is an edge of the map.
pub open spec fn line_edges_in(m: MetroMapView, l: LineView) -> bool {
    forall|i: int| 0 <= i < l.edges.len() ==> m.edges.contains_key(#[trigger] l.edges[i].0)
}

/// The line `l` after the edge `e` (from `from` to `to`) has been added to
/// it: the edge is appended, and both its ends are appended to the stations
/// unless the line already visits them.
pub open spec fn line_with_edge(l: LineView, e: EdgeID, from: StationID, to: StationID) -> LineView {
    LineView { edges: l.edges.push(e), stations: push_once(push_once(l.stations, from), to), ..l }
}

/// If the edge at position `i` of `edges` is an edge of the map that runs
/// from `b` to `a`.
pub open spec fn edge_runs(m: MetroMapView, edges: Seq<EdgeID>, i: int, b: StationID, a: StationID) -> bool {
    &&& 0 <= i < edges.len()
    &&& m.edges.contains_key(edges[i].0)
    &&& m.edges[edges[i].0].from == b
    &&& m.edges[edges[i].0].to == a
}

/// The first position of `edges` that holds an edge from `b` to `a`.
pub open spec fn first_run(m: MetroMapView, edges: Seq<EdgeID>, b: StationID, a: StationID) -> int {
    choose|i: int| edge_runs(m, edges, i, b, a) && forall|j: int| 0 <= j < i ==> !edge_runs(m, edges, j, b, a)
}

/// The stations of a line that uses `edges` after the edge `e` of the map
/// `m` has been added to it: unless the line already uses the edge, its
/// start and then its end are appended where they are missing.
pub open spec fn joined(stations: Seq<StationID>, edges: Seq<EdgeID>, e: EdgeID, m: MetroMapView) -> Seq<StationID> {
    if edges.contains(e) {
        stations
    } else {
        push_once(push_once(stations, m.edges[e.0].from), m.edges[e.0].to)
    }
}

/// What using the edge `r` between `x` and `y` does beyond the line's
/// edges: the stations grow as adding the edge makes them grow; where the
/// map had no edge between the two, `r` is new, has the next id of the
/// generator (`c`) and runs from `x` to `y`; no other edge is added or
/// changed.
#[verifier::opaque]
pub open spec fn attach_effect(
    l0: LineView,
    l: LineView,
    m0: MetroMapView,
    m: MetroMapView,
    x: StationID,
    y: StationID,
    r: EdgeID,
    c: u64,
) -> bool {
    &&& l.stations == joined(l0.stations, l0.edges, r, m)
    &&& m0.has_edge_between(x, y) ==> m0.edges.contains_key(r.0)
    &&& !m0.has_edge_between(x, y) ==> {
        &&& r.0 == c
        &&& !m0.edges.contains_key(r.0)
        &&& m.edges[r.0].from == x
        &&& m.edges[r.0].to == y
    }
    &&& forall|k: u64| #[trigger] m.edges.contains_key(k) ==> m0.edges.contains_key(k) || k == r.0
    &&& forall|k: u64| k != r.0 && #[trigger] m0.edges.contains_key(k) ==> m.edges[k] == m0.edges[k]
}

/// What taking the line's first edge from `b` to `a` off the line does to
/// the map (see [`edge_taken_off`]).
pub open spec fn detach_effect(l0: LineView, m0: MetroMapView, m: MetroMapView, b: StationID, a: StationID) -> bool {
    edge_taken_off(m0, m, l0.edges[first_run(m0, l0.edges, b, a)], l0.id)
}

/// What putting `station` on the line's first edge from `b` to `a` does:
/// that edge `e` leaves the line and `e1` (between the station and `b`) and
/// `e2` (between `a` and the station) are added to it, each made in that
/// direction where the map had no edge between the two; the stations grow
/// as adding each edge makes them grow; `e` leaves the map unless another
/// line uses it, in which case exactly those lines use it.
#[verifier::opaque]
pub open spec fn split_done(
    l0: LineView,
    m0: MetroMapView,
    l: LineView,
    m: MetroMapView,
    station: StationID,
    b: StationID,
    a: StationID,
    e1: EdgeID,
    e2: EdgeID,
) -> bool {
    let rest = l0.edges.remove(first_run(m0, l0.edges, b, a));
    let e = l0.edges[first_run(m0, l0.edges, b, a)];
    let users = lines_using(m0, e, l0.id);
    &&& l.edges == push_once(push_once(rest, e1), e2)
    &&& l.stations == joined(joined(l0.stations, rest, e1, m), push_once(rest, e1), e2, m)
    &&& m.edges.contains_key(e1.0)
    &&& connects(m.edges[e1.0], station, b)
    &&& !m0.has_edge_between(station, b) ==> m.edges[e1.0].from == station && m.edges[e1.0].to == b
    &&& m.edges.contains_key(e2.0)
    &&& connects(m.edges[e2.0], a, station)
    &&& !m0.has_edge_between(a, station) && e1 != e2 ==> m.edges[e2.0].from == a && m.edges[e2.0].to == station
    &&& users.len() == 0 ==> !m.edges.contains_key(e.0)
    &&& users.len() != 0 && e != e1 && e != e2 ==> m.edges.contains_key(e.0) && m.edges[e.0].lines.to_set() == users
    &&& forall|k: u64| #[trigger] m.edges.contains_key(k) ==> m0.edges.contains_key(k) || k == e1.0 || k == e2.0
    &&& forall|k: u64|
        k != e.0 && k != e1.0 && k != e2.0 && #[trigger] m0.edges.contains_key(k) ==> m.edges.contains_key(k)
            && m.edges[k] == m0.edges[k]
}

/// The facts of the three steps of [`Line::add_station`] on an edge give
/// [`split_done`].
proof fn lemma_split_facts(
    m0: MetroMapView,
    m1: MetroMapView,
    m2: MetroMapView,
    m3: MetroMapView,
    l0: LineView,
    l1: LineView,
    l2: LineView,
    l3: LineView,
    station: StationID,
    b: StationID,
    a: StationID,
    e1: EdgeID,
    e2: EdgeID,
    e: EdgeID,
    c0: u64,
    c1: u64,
    c2: u64,
)
    requires
        e == l0.edges[first_run(m0, l0.edges, b, a)],
        m0.edges.contains_key(e.0),
        forall|k: u64| #[trigger] m0.edges.contains_key(k) ==> k < c0,
        l1 == (LineView { edges: l0.edges.remove(first_run(m0, l0.edges, b, a)), ..l0 }),
        detach_effect(l0, m0, m1, b, a),
        forall|k: u64| #[trigger] m1.edges.contains_key(k) ==> m0.edges.contains_key(k),
        c0 == c1,
        attach_effect(l1, l2, m1, m2, station, b, e1, c1),
        attach_effect(l2, l3, m2, m3, a, station, e2, c2),
        c1 <= c2,
        ends_kept(m1, m2),
        ends_kept(m2, m3),
        l2.edges == push_once(l1.edges, e1),
        l3.edges == push_once(l2.edges, e2),
        m2.edges.contains_key(e1.0),
        connects(m2.edges[e1.0], station, b),
        m3.edges.contains_key(e2.0),
        connects(m3.edges[e2.0], a, station),
    ensures
        split_done(l0, m0, l3, m3, station, b, a, e1, e2),
{
    reveal(split_done);
    reveal(attach_effect);
    reveal(edge_taken_off);
    assert(m3.edges.contains_key(e1.0));
    assert(m3.edges[e1.0].from == m2.edges[e1.0].from && m3.edges[e1.0].to == m2.edges[e1.0].to);
    if !m0.has_edge_between(station, b) {
        assert(!m1.has_edge_between(station, b)) by {
            if m1.has_edge_between(station, b) {
                let k = choose|k: u64| #[trigger] m1.edges.contains_key(k) && connects(m1.edges[k], station, b);
                assert(m0.edges.contains_key(k));
                assert(connects(m0.edges[k], station, b));
            }
        }
    }
    if !m0.has_edge_between(a, station) && e1 != e2 {
        assert(!m2.has_edge_between(a, station)) by {
            if m2.has_edge_between(a, station) {
                let k = choose|k: u64| #[trigger] m2.edges.contains_key(k) && connects(m2.edges[k], a, station);
                assert(m2.edges.contains_key(e2.0));
                assert(connects(m2.edges[e2.0], a, station));
                assert(m2.has_edge_between(a, station));
                assert(m2.edges.contains_key(e2.0));
                assert(m1.edges.contains_key(e2.0));
                assert(m2.edges[e2.0] == m1.edges[e2.0]);
                assert(m0.edges.contains_key(e2.0));
                assert(connects(m0.edges[e2.0], a, station));
                assert(m0.has_edge_between(a, station));
            }
        }
    }
    assert(e.0 < c0);
    if lines_using(m0, e, l0.id).len() == 0 {
        assert(!m2.edges.contains_key(e.0)) by {
            if m2.edges.contains_key(e.0) {
                assert(e.0 == e1.0);
                assert(!m1.has_edge_between(station, b)) by {
                    if m1.has_edge_between(station, b) {
                        assert(m1.edges.contains_key(e1.0));
                    }
                }
            }
        }
        assert(!m3.edges.contains_key(e.0)) by {
            if m3.edges.contains_key(e.0) {
                assert(e.0 == e2.0);
                assert(!m2.has_edge_between(a, station)) by {
                    if m2.has_edge_between(a, station) {
                        assert(m2.edges.contains_key(e2.0));
                    }
                }
            }
        }
    }
    if lines_using(m0, e, l0.id).len() != 0 && e != e1 && e != e2 {
        assert(m1.edges.contains_key(e.0));
        assert(m2.edges[e.0] == m1.edges[e.0]);
        assert(m2.edges.contains_key(e.0));
        assert(m3.edges[e.0] == m2.edges[e.0]);
        assert(m3.edges.contains_key(e.0));
    }
    assert forall|k: u64| #[trigger] m3.edges.contains_key(k) implies m0.edges.contains_key(k) || k == e1.0 || k == e2.0 by {
        if k != e2.0 {
            assert(m2.edges.contains_key(k));
            if k != e1.0 {
                assert(m1.edges.contains_key(k));
            }
        }
    }
    assert forall|k: u64| k != e.0 && k != e1.0 && k != e2.0 && #[trigger] m0.edges.contains_key(k) implies m3.edges.contains_key(k)
        && m3.edges[k] == m0.edges[k] by {
        assert(m1.edges.contains_key(k));
        assert(m2.edges.contains_key(k));
    }
}

/// The line's other edges stay in the map when its edge at `idx` is taken
/// off it.
proof fn lemma_detach_line(l0: LineView, l1: LineView, m0: MetroMapView, m1: MetroMapView, idx: int)
    requires
        0 <= idx < l0.edges.len(),
        l1.edges == l0.edges.remove(idx),
        l0.edges.no_duplicates(),
        line_edges_in(m0, l0),
        forall|k: u64| k != l0.edges[idx].0 && #[trigger] m0.edges.contains_key(k) ==> m1.edges.contains_key(k),
    ensures
        line_edges_in(m1, l1),
        l1.edges.no_duplicates(),
{
    assert forall|i: int| 0 <= i < l1.edges.len() implies m1.edges.contains_key(#[trigger] l1.edges[i].0) by {
        if i < idx {
            assert(l1.edges[i] == l0.edges[i]);
            assert(l0.edges[i] != l0.edges[idx]);
            assert(m0.edges.contains_key(l0.edges[i].0));
        } else {
            assert(l1.edges[i] == l0.edges[i + 1]);
            assert(l0.edges[i + 1] != l0.edges[idx]);
            assert(m0.edges.contains_key(l0.edges[i + 1].0));
        }
    }
    lemma_remove_keeps_distinct(l0.edges, idx);
}

/// The line `l` with `station` appended to its stations, unless it
/// already visits it.
pub open spec fn line_with_station(l: LineView, station: StationID) -> LineView {
    LineView { stations: push_once(l.stations, station), ..l }
}

/// Being a prefix is transitive.
proof fn lemma_prefix_trans<A>(a: Seq<A>, b: Seq<A>, c: Seq<A>)
    requires
        a.is_prefix_of(b),
        b.is_prefix_of(c),
    ensures
        a.is_prefix_of(c),
{
    assert(a =~= c.subrange(0, a.len() as int)) by {
        assert forall|i: int| 0 <= i < a.len() implies a[i] == c[i] by {
            assert(a[i] == b.subrange(0, a.len() as int)[i]);
            assert(b[i] == c.subrange(0, b.len() as int)[i]);
        }
    }
}

/// Which of the edges touch `s`, and their other ends, depend only on the
/// ends of those edges.
pub proof fn lemma_ends_around_same(m1: MetroMapView, m2: MetroMapView, es: Seq<EdgeID>, s: StationID)
    requires
        forall|i: int|
            0 <= i < es.len() ==> m1.edges.contains_key(#[trigger] es[i].0) && m2.edges.contains_key(es[i].0)
                && m1.edges[es[i].0].from == m2.edges[es[i].0].from && m1.edges[es[i].0].to == m2.edges[es[i].0].to,
    ensures
        ends_around(m1, es, s) == ends_around(m2, es, s),
        edges_avoiding(m1, es, s) == edges_avoiding(m2, es, s),
    decreases es.len(),
{
    if es.len() > 0 {
        let d = es.drop_last();
        assert forall|i: int| 0 <= i < d.len() implies m1.edges.contains_key(#[trigger] d[i].0) && m2.edges.contains_key(d[i].0)
            && m1.edges[d[i].0].from == m2.edges[d[i].0].from && m1.edges[d[i].0].to == m2.edges[d[i].0].to by {
            assert(d[i] == es[i]);
        }
        lemma_ends_around_same(m1, m2, d, s);
        assert(es.last() == es[es.len() - 1]);
    }
}

/// Each of `xs` is in `s` once they have been added to it.
pub proof fn lemma_push_all_once_contains<A>(s: Seq<A>, xs: Seq<A>, j: int)
    requires
        0 <= j < xs.len(),
    ensures
        push_all_once(s, xs).contains(xs[j]),
    decreases xs.len(),
{
    let p = push_all_once(s, xs.drop_last());
    lemma_push_once_contains(p, xs.last(), xs[j]);
    if j < xs.len() - 1 {
        lemma_push_all_once_contains(s, xs.drop_last(), j);
        assert(xs.drop_last()[j] == xs[j]);
    }
}

/// What removing the station `id` from the map `m0` does to its line with
/// number `k`, as the map `f` shows it: the line's edges that avoid the
/// station stay, in order, followed by one edge for each pair of the other
/// ends of its edges at the station, in order, that joins the pair in `f`;
/// and the line visits no station that it did not visit before but those
/// ends.
pub open spec fn line_rejoined(m0: MetroMapView, f: MetroMapView, k: u64, id: StationID) -> bool {
    let l = m0.lines[k];
    let ends = ends_around(m0, l.edges, id);
    let pairs = ordered_pairs(ends);
    &&& forall|s: StationID|
        #![trigger f.lines[k].stations.contains(s)]
        f.lines[k].stations.contains(s) ==> l.stations.remove_value(id).contains(s) || ends.contains(s)
    &&& exists|new: Seq<EdgeID>|
        #![trigger push_all_once(edges_avoiding(m0, l.edges, id), new)]
        {
            &&& new.len() == pairs.len()
            &&& f.lines[k].edges == push_all_once(edges_avoiding(m0, l.edges, id), new)
            &&& f.lines[k].stations == rejoined_stations(
                l.stations.remove_value(id),
                edges_avoiding(m0, l.edges, id),
                new,
                f,
            )
            &&& forall|j: int|
                0 <= j < new.len() ==> f.edges.contains_key(#[trigger] new[j].0) && connects(
                    f.edges[new[j].0],
                    pairs[j].0,
                    pairs[j].1,
                )
        }
}

/// What [`Line::add_station`] does: the line `l0` on the map `m0` becomes
/// `l` on the map `m`, where `c` is the next edge id of the generator.
pub open spec fn station_added(
    l0: LineView,
    m0: MetroMapView,
    l: LineView,
    m: MetroMapView,
    station: StationID,
    before: Option<StationID>,
    after: Option<StationID>,
    c: u64,
) -> bool {
    &&& l.id == l0.id
    &&& l.name == l0.name
    &&& l.color == l0.color
    &&& forall|s: StationID|
        #![trigger l.stations.contains(s)]
        l.stations.contains(s) ==> l0.stations.contains(s) || s == station
            || before == Some(s) || after == Some(s)
    &&& forall|s: StationID|
        #![trigger l.stations.contains(s)]
        l0.stations.contains(s) || s == station ==> l.stations.contains(s)
    &&& l0.stations.is_prefix_of(l.stations)
    &&& before is None && after is None ==> {
        &&& l == line_with_station(l0, station)
        &&& m == m0
    }
    &&& before is None && after is Some ==> exists|e: EdgeID|
        #![trigger attach_effect(line_with_station(l0, station), l, m0, m, station, after->0, e, c)]
        {
            &&& l.edges == push_once(l0.edges, e)
            &&& m.edges.contains_key(e.0)
            &&& connects(m.edges[e.0], station, after->0)
            &&& attach_effect(line_with_station(l0, station), l, m0, m, station, after->0, e, c)
        }
    &&& before is Some && after is None ==> exists|e: EdgeID|
        #![trigger attach_effect(line_with_station(l0, station), l, m0, m, before->0, station, e, c)]
        {
            &&& l.edges == push_once(l0.edges, e)
            &&& m.edges.contains_key(e.0)
            &&& connects(m.edges[e.0], before->0, station)
            &&& attach_effect(line_with_station(l0, station), l, m0, m, before->0, station, e, c)
        }
    &&& before is Some && after is Some ==> exists|e1: EdgeID, e2: EdgeID|
        #![trigger split_done(line_with_station(l0, station), m0, l, m, station, before->0, after->0, e1, e2)]
        split_done(line_with_station(l0, station), m0, l, m, station, before->0, after->0, e1, e2)
}

/// No pair before position `j` of `pairs` joins the same two stations as
/// the pair at `j`.
pub open spec fn first_pair(pairs: Seq<(StationID, StationID)>, j: int) -> bool {
    forall|q: int|
        #![trigger pairs[q]]
        0 <= q < j ==> pairs[q] != pairs[j] && !(pairs[q].1 == pairs[j].0 && pairs[q].0 == pairs[j].1)
}

/// The stations of a line that uses the edges `kept` after each of the
/// edges `new`, in order, has been added to it (see [`joined`]), starting
/// from `stations`.
pub open spec fn rejoined_stations(
    stations: Seq<StationID>,
    kept: Seq<EdgeID>,
    new: Seq<EdgeID>,
    m: MetroMapView,
) -> Seq<StationID>
    decreases new.len(),
{
    if new.len() == 0 {
        stations
    } else {
        joined(
            rejoined_stations(stations, kept, new.drop_last(), m),
            push_all_once(kept, new.drop_last()),
            new.last(),
            m,
        )
    }
}

/// [`rejoined_stations`] depends only on the ends of the added edges.
pub proof fn lemma_stations_after_same(
    stations: Seq<StationID>,
    kept: Seq<EdgeID>,
    new: Seq<EdgeID>,
    m1: MetroMapView,
    m2: MetroMapView,
)
    requires
        forall|j: int|
            0 <= j < new.len() ==> m1.edges.contains_key(#[trigger] new[j].0) && m2.edges.contains_key(new[j].0)
                && m1.edges[new[j].0].from == m2.edges[new[j].0].from && m1.edges[new[j].0].to == m2.edges[new[j].0].to,
    ensures
        rejoined_stations(stations, kept, new, m1) == rejoined_stations(stations, kept, new, m2),
    decreases new.len(),
{
    if new.len() > 0 {
        let d = new.drop_last();
        assert forall|j: int| 0 <= j < d.len() implies m1.edges.contains_key(#[trigger] d[j].0) && m2.edges.contains_key(d[j].0)
            && m1.edges[d[j].0].from == m2.edges[d[j].0].from && m1.edges[d[j].0].to == m2.edges[d[j].0].to by {
            assert(d[j] == new[j]);
        }
        lemma_stations_after_same(stations, kept, d, m1, m2);
        assert(new.last() == new[new.len() - 1]);
    }
}

/// The edge `b` is the edge `a` but for the lines that use it.
pub open spec fn same_but_lines(a: EdgeView, b: EdgeView) -> bool {
    b == EdgeView { lines: b.lines, ..a }
}

/// If the edge has `s` at one of its ends.
pub open spec fn meets(m: MetroMapView, s: StationID) -> spec_fn(EdgeID) -> bool {
    |e: EdgeID| m.edges[e.0].to == s || m.edges[e.0].from == s
}

/// If the edge has `s` at neither end.
pub open spec fn avoiding(m: MetroMapView, s: StationID) -> spec_fn(EdgeID) -> bool {
    |e: EdgeID| m.edges[e.0].to != s && m.edges[e.0].from != s
}

/// The end of an edge other than `s`: its start where it ends at `s`, else
/// its end.
pub open spec fn far_end(m: MetroMapView, s: StationID) -> spec_fn(EdgeID) -> StationID {
    |e: EdgeID| if m.edges[e.0].to == s { m.edges[e.0].from } else { m.edges[e.0].to }
}

/// Taking a station off a line splits its edges in two, in order: those
/// with the station at an end, whose other ends are to be joined, and those
/// without it, which stay.
pub proof fn lemma_edges_around_station(m: MetroMapView, es: Seq<EdgeID>, s: StationID)
    ensures
        ends_around(m, es, s) == es.filter(meets(m, s)).map_values(far_end(m, s)),
        edges_avoiding(m, es, s) == es.filter(avoiding(m, s)),
    decreases es.len(),
{
    reveal(Seq::filter);
    if es.len() == 0 {
        assert(es.filter(meets(m, s)).map_values(far_end(m, s)) =~= Seq::<StationID>::empty());
    } else {
        let d = es.drop_last();
        let x = es.last();
        lemma_edges_around_station(m, d, s);
        assert(es.filter(meets(m, s)) == if meets(m, s)(x) {
            d.filter(meets(m, s)).push(x)
        } else {
            d.filter(meets(m, s))
        });
        assert(es.filter(avoiding(m, s)) == if avoiding(m, s)(x) {
            d.filter(avoiding(m, s)).push(x)
        } else {
            d.filter(avoiding(m, s))
        });
        assert(d.filter(meets(m, s)).push(x).map_values(far_end(m, s)) =~= d.filter(meets(m, s)).map_values(
            far_end(m, s),
        ).push(other_end(m, x, s)));
    }
}

/// The pairs to be joined hold each two of the stations, the earlier first.
pub proof fn lemma_ordered_pairs_hold_each_pair(s: Seq<StationID>, i: int, j: int)
    requires
        0 <= i < j < s.len(),
    ensures
        ordered_pairs(s).contains((s[i], s[j])),
    decreases s.len(),
{
    let t = s.drop_first();
    let a = t.map_values(|x: StationID| (s[0], x));
    assert(ordered_pairs(s) == a + ordered_pairs(t));
    if i == 0 {
        assert(a[j - 1] == (s[0], s[j]));
        assert((a + ordered_pairs(t))[j - 1] == (s[i], s[j]));
    } else {
        lemma_ordered_pairs_hold_each_pair(t, i - 1, j - 1);
        assert(t[i - 1] == s[i] && t[j - 1] == s[j]);
        let q = choose|q: int| 0 <= q < ordered_pairs(t).len() && ordered_pairs(t)[q] == (s[i], s[j]);
        assert((a + ordered_pairs(t))[a.len() + q] == (s[i], s[j]));
    }
}

/// Every edge of `a` is an edge of `b`, as it was but for the lines that
/// use it.
pub open spec fn ends_kept(a: MetroMapView, b: MetroMapView) -> bool {
    forall|k: u64| #[trigger]
        a.edges.contains_key(k) ==> b.edges.contains_key(k) && b.edges[k] == EdgeView { lines: b.edges[k].lines, ..a.edges[k] }
}

/// Keeping the places of the stations is transitive.
proof fn lemma_places_kept_trans(a: MetroMapView, b: MetroMapView, c: MetroMapView)
    requires
        station_places_kept(a, b),
        station_places_kept(b, c),
    ensures
        station_places_kept(a, c),
{
    assert forall|k: u64| #[trigger] a.stations.contains_key(k) implies c.stations[k].pos == a.stations[k].pos
        && c.stations[k].id == a.stations[k].id by {
        assert(b.stations.contains_key(k));
    }
}

/// Removing an element keeps the others distinct.
proof fn lemma_remove_keeps_distinct<A>(s: Seq<A>, i: int)
    requires
        s.no_duplicates(),
        0 <= i < s.len(),
    ensures
        s.remove(i).no_duplicates(),
{
    let r = s.remove(i);
    assert forall|p: int, q: int| 0 <= p < q < r.len() implies r[p] != r[q] by {
        let sp = if p < i { p } else { p + 1 };
        let sq = if q < i { q } else { q + 1 };
        assert(r[p] == s[sp]);
        assert(r[q] == s[sq]);
    }
}

/// If `s` is one of the two ends of the edge `e` of the map.
pub open spec fn touches(m: MetroMapView, e: EdgeID, s: StationID) -> bool {
    m.edges[e.0].to == s || m.edges[e.0].from == s
}

/// The end of the edge `e` other than `s`: its start if it ends at `s`, else
/// its end.
pub open spec fn other_end(m: MetroMapView, e: EdgeID, s: StationID) -> StationID {
    if m.edges[e.0].to == s {
        m.edges[e.0].from
    } else {
        m.edges[e.0].to
    }
}

/// For each of the edges, in order, that touches `s`: its other end.
pub open spec fn ends_around(m: MetroMapView, es: Seq<EdgeID>, s: StationID) -> Seq<StationID>
    decreases es.len(),
{
    if es.len() == 0 {
        Seq::empty()
    } else if touches(m, es.last(), s) {
        ends_around(m, es.drop_last(), s).push(other_end(m, es.last(), s))
    } else {
        ends_around(m, es.drop_last(), s)
    }
}

/// The edges, in order, that do not touch `s`.
pub open spec fn edges_avoiding(m: MetroMapView, es: Seq<EdgeID>, s: StationID) -> Seq<EdgeID>
    decreases es.len(),
{
    if es.len() == 0 {
        es
    } else if touches(m, es.last(), s) {
        edges_avoiding(m, es.drop_last(), s)
    } else {
        edges_avoiding(m, es.drop_last(), s).push(es.last())
    }
}

/// `s` after each of `xs`, in order, has been added to its end unless it
/// was already there.
pub open spec fn push_all_once<A>(s: Seq<A>, xs: Seq<A>) -> Seq<A>
    decreases xs.len(),
{
    if xs.len() == 0 {
        s
    } else {
        push_once(push_all_once(s, xs.drop_last()), xs.last())
    }
}

/// All pairs `(s[i], s[j])` with `i < j`, ordered by `i` and then by `j`.
pub open spec fn ordered_pairs(s: Seq<StationID>) -> Seq<(StationID, StationID)>
    decreases s.len(),
{
    if s.len() == 0 {
        Seq::empty()
    } else {
        s.drop_first().map_values(|x: StationID| (s[0], x)) + ordered_pairs(s.drop_first())
    }
}

/// The pairs of two of the given stations, as `Itertools::combinations(2)`
/// lists them.
///
/// Calls `itertools::Itertools::combinations` with a length of two, which
/// pairs elements by their positions (equal values count apart) and yields
/// the pairs of position indices in lexicographic order, as its
/// documentation's examples and its source show: the first element with
/// each later one in order, then the second, and so on. The contract claims
/// exactly that order; it is not proved here.
#[verifier::external_body]
fn pairs_of(ends: Vec<StationID>) -> (r: Vec<(StationID, StationID)>)
    ensures
        r@ == ordered_pairs(ends@),
{
    ends.into_iter().combinations(2).map(|c| (c[0], c[1])).collect()
}

impl Clone for Line {
    fn clone(&self) -> (r: Self)
        ensures
            r@ == self@,
    {
        Line {
            id: self.id,
            name: self.name.clone(),
            color: self.color,
            stations: copy_vec(&self.stations),
            edges: copy_vec(&self.edges),
        }
    }
}

impl Line {
    fn push_station_if_absent(&mut self, station: StationID)
        ensures
            final(self)@ == (LineView { stations: push_once(old(self)@.stations, station), ..old(self)@ }),
    {
        let mut i: usize = 0;
        while i < self.stations.len()
            invariant
                i <= self.stations@.len(),
                self@ == old(self)@,
                forall|j: int| 0 <= j < i ==> self.stations@[j] != station,
            decreases self.stations@.len() - i,
        {
            if self.stations[i] == station {
                return;
            }
            i = i + 1;
        }
        self.stations.push(station);
    }

    /// Add an edge that the line uses, unless it is already there: the edge
    /// is marked as used by the line, and its ends are added to the
    /// stations of the line.
    pub fn add_edge(&mut self, edge_id: EdgeID, map: &mut MetroMap)
        requires
            old(map)@.wf(),
            !old(self)@.edges.contains(edge_id) ==> old(map)@.edges.contains_key(edge_id.0),
        ensures
            old(self)@.edges.contains(edge_id) ==> final(self)@ == old(self)@ && final(map)@
                == old(map)@,
            !old(self)@.edges.contains(edge_id) ==> {
                let e = old(map)@.edges[edge_id.0];
                &&& final(map)@ == (MetroMapView {
                    edges: old(map)@.edges.insert(
                        edge_id.0,
                        super::edge::EdgeView { lines: lines_with(e.lines, old(self)@.id), ..e },
                    ),
                    ..old(map)@
                })
                &&& final(self)@ == line_with_edge(old(self)@, edge_id, e.from, e.to)
            },
            final(map)@.wf(),
            station_places_kept(old(map)@, final(map)@),
            old(map)@.edges_attached() ==> final(map)@.edges_attached(),
            old(map)@.lines_valid() ==> final(map)@.lines_valid(),
            final(self)@.id == old(self)@.id,
            final(map)@.edges.dom() == old(map)@.edges.dom(),
            forall|s: StationID|
                #![trigger final(self)@.stations.contains(s)]
                final(self)@.stations.contains(s) <==> (old(self)@.stations.contains(s) || (!old(
                    self,
                )@.edges.contains(edge_id) && (s == old(map)@.edges[edge_id.0].from || s == old(
                    map,
                )@.edges[edge_id.0].to))),
            old(self)@.edges.no_duplicates() ==> final(self)@.edges.no_duplicates(),
            line_edges_in(old(map)@, old(self)@) ==> line_edges_in(final(map)@, final(self)@),
    {
        let ghost l0 = self@;
        if contains_edge_id(self.edges.as_slice(), edge_id) {
            return;
        }
        let line_id = self.id;
        let ghost m = map@;
        let (from, to) = match map.get_mut_edge(edge_id) {
            Some(edge) => {
                assert(m.wf());
                assert(m.edges.contains_key(edge_id.0));
                edge.add_line(line_id);
                (edge.get_from(), edge.get_to())
            },
            None => {
                proof {
                    assert(false);
                }
                (StationID(0), StationID(0))
            },
        };
        self.edges.push(edge_id);
        self.push_station_if_absent(from);
        self.push_station_if_absent(to);
        proof {
            let f = map@;
            assert(f.stations.dom() =~= m.stations.dom());
            assert forall|k: u64| #[trigger] f.edges.contains_key(k) implies super::edge::strictly_sorted_ids(f.edges[k].lines) by {
                assert(m.edges.contains_key(k));
            }
            assert forall|k: u64| #[trigger] f.edges.contains_key(k) implies f.edges[k].id.0 == k by {
                assert(m.edges.contains_key(k));
            }
            if m.edges_attached() {
                assert forall|k: u64| #[trigger] f.edges.contains_key(k) implies f.stations.contains_key(f.edges[k].from.0)
                    && f.stations.contains_key(f.edges[k].to.0) by {
                    assert(m.edges.contains_key(k));
                }
            }
            if m.lines_valid() {
                assert forall|k: u64, i: int|
                    f.lines.contains_key(k) && 0 <= i < f.lines[k].edges.len()
                    implies f.edges.contains_key(#[trigger] f.lines[k].edges[i].0) by {
                    assert(m.lines[k].edges[i] == f.lines[k].edges[i]);
                }
            }
            assert(f.edges.dom() =~= m.edges.dom());
            assert forall|s: StationID| #[trigger] self@.stations.contains(s) <==> (l0.stations.contains(s) || s == from || s == to) by {
                lemma_push_once_contains(l0.stations, from, s);
                lemma_push_once_contains(push_once(l0.stations, from), to, s);
            }
            if l0.edges.no_duplicates() {
                assert forall|i: int, j: int| 0 <= i < j < self@.edges.len() implies self@.edges[i] != self@.edges[j] by {
                    if j == l0.edges.len() {
                        assert(l0.edges[i] == self@.edges[i]);
                    }
                }
            }
            if line_edges_in(m, old(self)@) {
                assert forall|i: int| 0 <= i < self@.edges.len() implies f.edges.contains_key(#[trigger] self@.edges[i].0) by {
                    if i < old(self)@.edges.len() {
                        assert(self@.edges[i] == old(self)@.edges[i]);
                    }
                }
            }
        }
    }
}

impl Line {
    /// The position of the first edge of the line that runs from `b` to `a`.
    fn position_of_run(&self, map: &MetroMap, b: StationID, a: StationID) -> (r: usize)
        requires
            line_edges_in(map@, self@),
            exists|i: int| edge_runs(map@, self@.edges, i, b, a),
        ensures
            r == first_run(map@, self@.edges, b, a),
            edge_runs(map@, self@.edges, r as int, b, a),
    {
        let n = self.edges.len();
        let mut idx: usize = 0;
        while idx < n
            invariant
                idx <= n,
                n == self@.edges.len(),
                line_edges_in(map@, self@),
                exists|i: int| edge_runs(map@, self@.edges, i, b, a),
                forall|j: int| 0 <= j < idx ==> !edge_runs(map@, self@.edges, j, b, a),
            decreases n - idx,
        {
            assert(map@.edges.contains_key(self@.edges[idx as int].0));
            let e = map.get_edge(self.edges[idx]).unwrap();
            if e.is_from(b) && e.is_to(a) {
                proof {
                    let es = self@.edges;
                    assert(edge_runs(map@, es, idx as int, b, a));
                    let f = first_run(map@, es, b, a);
                    assert(edge_runs(map@, es, f, b, a) && forall|j: int| 0 <= j < f ==> !edge_runs(map@, es, j, b, a));
                    if f < idx {
                        assert(!edge_runs(map@, es, f, b, a));
                    } else if f > idx {
                        assert(!edge_runs(map@, es, idx as int, b, a));
                    }
                }
                return idx;
            }
            idx = idx + 1;
        }
        proof {
            let i = choose|i: int| edge_runs(map@, self@.edges, i, b, a);
            assert(!edge_runs(map@, self@.edges, i, b, a));
        }
        0
    }

    /// Use the edge between `x` and `y` on the line; if the map has no edge
    /// between them, a new one from `x` to `y` is made first. Returns the id
    /// of that edge.
    fn attach_between(&mut self, map: &mut MetroMap, x: StationID, y: StationID, ids: &mut IDManager) -> (r: EdgeID)
        requires
            old(map)@.wf(),
            fresh_edge_ids(old(map)@, *old(ids)),
            old(ids).edge_counter() < u64::MAX,
            old(map)@.stations.contains_key(x.0),
            old(map)@.stations.contains_key(y.0),
        ensures
            final(self)@.id == old(self)@.id,
            final(self)@.name == old(self)@.name,
            final(self)@.color == old(self)@.color,
            final(self)@.edges == push_once(old(self)@.edges, r),
            final(map)@.edges.contains_key(r.0),
            connects(final(map)@.edges[r.0], x, y),
            forall|s: StationID|
                #![trigger final(self)@.stations.contains(s)]
                final(self)@.stations.contains(s) ==> old(self)@.stations.contains(s) || s == x || s == y,
            old(self)@.stations.is_prefix_of(final(self)@.stations),
            forall|s: StationID|
                #![trigger final(self)@.stations.contains(s)]
                old(self)@.stations.contains(s) ==> final(self)@.stations.contains(s),
            attach_effect(old(self)@, final(self)@, old(map)@, final(map)@, x, y, r, old(ids).edge_counter()),
            forall|k: u64| #[trigger] final(map)@.edges.contains_key(k) ==> old(map)@.edges.contains_key(k)
                || k >= old(ids).edge_counter(),
            forall|k: u64| #[trigger] final(map)@.edges.contains_key(k) ==> old(map)@.edges.contains_key(k) || k == r.0,
            old(map)@.has_edge_between(x, y) ==> old(map)@.edges.contains_key(r.0),
            final(self)@.stations == joined(old(self)@.stations, old(self)@.edges, r, final(map)@),
            !old(map)@.has_edge_between(x, y) ==> {
                &&& r.0 == old(ids).edge_counter()
                &&& !old(map)@.edges.contains_key(r.0)
                &&& final(map)@.edges[r.0].from == x
                &&& final(map)@.edges[r.0].to == y
            },
            old(self)@.edges.no_duplicates() ==> final(self)@.edges.no_duplicates(),
            ends_kept(old(map)@, final(map)@),
            final(map)@.wf(),
            station_places_kept(old(map)@, final(map)@),
            fresh_edge_ids(final(map)@, *final(ids)),
            final(ids).edge_counter() <= old(ids).edge_counter() + 1,
            old(ids).edge_counter() <= final(ids).edge_counter(),
            final(map)@.lines == old(map)@.lines,
            old(map)@.edges_attached() ==> final(map)@.edges_attached(),
            old(map)@.lines_valid() ==> final(map)@.lines_valid(),
            line_edges_in(old(map)@, old(self)@) ==> line_edges_in(final(map)@, final(self)@),
    {
        let ghost m0 = map@;
        let e = map.get_edge_id_between(x, y, ids);
        let ghost m1 = map@;
        proof {
            if line_edges_in(m0, self@) {
                assert forall|i: int| 0 <= i < self@.edges.len() implies m1.edges.contains_key(#[trigger] self@.edges[i].0) by {
                    assert(m0.edges.contains_key(self@.edges[i].0));
                }
            }
        }
        let ghost l1 = self@;
        self.add_edge(e, map);
        proof {
            if !l1.edges.contains(e) {
                let t = push_once(l1.stations, map@.edges[e.0].from);
                assert(l1.stations =~= t.subrange(0, l1.stations.len() as int));
                assert(t =~= push_once(t, map@.edges[e.0].to).subrange(0, t.len() as int));
            }
            assert forall|k: u64| #[trigger] m0.edges.contains_key(k) implies map@.edges.contains_key(k)
                && map@.edges[k].from == m0.edges[k].from && map@.edges[k].to == m0.edges[k].to by {
                assert(m1.edges.contains_key(k));
            }
            assert forall|k: u64| #[trigger] m0.stations.contains_key(k) implies map@.stations[k].pos == m0.stations[k].pos
                && map@.stations[k].id == m0.stations[k].id by {
                assert(m1.stations.contains_key(k));
            }
            assert forall|k: u64| k != e.0 && #[trigger] m0.edges.contains_key(k) implies map@.edges[k] == m0.edges[k] by {
                assert(m1.edges.contains_key(k));
            }
            assert forall|k: u64| #[trigger] map@.edges.contains_key(k) implies m0.edges.contains_key(k) || k == e.0 by {
                if !m0.has_edge_between(x, y) {
                    assert(m1 == with_edge(m0, new_edge_view(e, x, y)));
                }
            }
            if !m0.has_edge_between(x, y) {
                assert(!m0.edges.contains_key(e.0)) by {
                    if m0.edges.contains_key(e.0) {
                        assert(e.0 < old(ids).edge_counter());
                    }
                }
            }
            reveal(attach_effect);
        }
        e
    }

    /// Take the line's first edge from `b` to `a` off the line, and tell the
    /// map so.
    fn detach_run(&mut self, map: &mut MetroMap, b: StationID, a: StationID)
        requires
            old(map)@.wf(),
            line_edges_in(old(map)@, old(self)@),
            old(self)@.edges.no_duplicates(),
            exists|i: int| edge_runs(old(map)@, old(self)@.edges, i, b, a),
        ensures
            final(self)@ == (LineView {
                edges: old(self)@.edges.remove(first_run(old(map)@, old(self)@.edges, b, a)),
                ..old(self)@
            }),
            edge_runs(old(map)@, old(self)@.edges, first_run(old(map)@, old(self)@.edges, b, a), b, a),
            final(self)@.edges.no_duplicates(),
            forall|k: u64| #[trigger] final(map)@.edges.contains_key(k) ==> old(map)@.edges.contains_key(k),
            detach_effect(old(self)@, old(map)@, final(map)@, b, a),
            final(map)@.wf(),
            station_places_kept(old(map)@, final(map)@),
            old(map)@.edges_attached() ==> final(map)@.edges_attached(),
            old(map)@.lines_valid() ==> final(map)@.lines_valid(),
            line_edges_in(final(map)@, final(self)@),
    {
        let ghost m0 = map@;
        let ghost l0 = self@;
        let idx = self.position_of_run(map, b, a);
        let edge_id = self.edges[idx];
        self.edges.remove(idx);
        let ghost l1 = self@;
        map.take_off_edge(edge_id, self.id);
        let ghost m1 = map@;
        proof {
            assert(m0.edges.contains_key(edge_id.0));
            assert(forall|k: u64| k != edge_id.0 && #[trigger] m0.edges.contains_key(k) ==> m1.edges.contains_key(k)) by {
                reveal(edge_taken_off);
            }
            lemma_detach_line(l0, l1, m0, m1, idx as int);
        }
    }

    /// Put `station` on the line's first edge from `b` to `a`: that edge is
    /// taken off the line and replaced by an edge from the station to `b`
    /// and one from `a` to the station. Returns those two edges.
    #[verifier::rlimit(100)]
    fn split_run(
        &mut self,
        map: &mut MetroMap,
        station: StationID,
        b: StationID,
        a: StationID,
        ids: &mut IDManager,
    ) -> (r: (EdgeID, EdgeID))
        requires
            old(map)@.wf(),
            fresh_edge_ids(old(map)@, *old(ids)),
            old(ids).edge_counter() < u64::MAX - 1,
            old(map)@.stations.contains_key(station.0),
            old(map)@.stations.contains_key(b.0),
            old(map)@.stations.contains_key(a.0),
            line_edges_in(old(map)@, old(self)@),
            old(self)@.edges.no_duplicates(),
            exists|i: int| edge_runs(old(map)@, old(self)@.edges, i, b, a),
        ensures
            final(self)@.id == old(self)@.id,
            final(self)@.name == old(self)@.name,
            final(self)@.color == old(self)@.color,
            split_done(old(self)@, old(map)@, final(self)@, final(map)@, station, b, a, r.0, r.1),
            old(self)@.stations.is_prefix_of(final(self)@.stations),
            forall|s: StationID|
                #![trigger final(self)@.stations.contains(s)]
                final(self)@.stations.contains(s) ==> old(self)@.stations.contains(s) || s == station
                    || s == b || s == a,
            forall|s: StationID|
                #![trigger final(self)@.stations.contains(s)]
                old(self)@.stations.contains(s) ==> final(self)@.stations.contains(s),
            final(self)@.edges.no_duplicates(),
            final(map)@.wf(),
            station_places_kept(old(map)@, final(map)@),
            fresh_edge_ids(final(map)@, *final(ids)),
            old(map)@.edges_attached() ==> final(map)@.edges_attached(),
            old(map)@.lines_valid() ==> final(map)@.lines_valid(),
            line_edges_in(final(map)@, final(self)@),
    {
        let ghost m0 = map@;
        let ghost l0 = self@;
        let ghost c0 = ids.edge_counter();
        self.detach_run(map, b, a);
        let ghost m1 = map@;
        let ghost l1 = self@;
        let ghost c1 = ids.edge_counter();
        proof {
            lemma_places_kept_trans(m0, m1, m1);
        }
        let e1 = self.attach_between(map, station, b, ids);
        let ghost m2 = map@;
        let ghost l2 = self@;
        let ghost c2 = ids.edge_counter();
        let e2 = self.attach_between(map, a, station, ids);
        proof {
            lemma_places_kept_trans(m0, m1, m2);
            lemma_places_kept_trans(m0, m2, map@);
            let f = first_run(m0, l0.edges, b, a);
            assert(edge_runs(m0, l0.edges, f, b, a));
            let e = l0.edges[f];
            lemma_split_facts(m0, m1, m2, map@, l0, l1, l2, self@, station, b, a, e1, e2, e, c0, c1, c2);
            lemma_prefix_trans(l0.stations, l2.stations, self@.stations);
        }
        (e1, e2)
    }

    /// Add a station to the line (unless the line already visits it, it is
    /// appended to the stations). With both `before` and `after` given, the
    /// station is put on the line's first edge from `before` to `after`: that
    /// edge is replaced by an edge from the station to `before` and one from
    /// `after` to the station (see [`split_done`]). With only `after`, the
    /// edge between the station and `after` is added; with only `before`, the
    /// one between `before` and the station (see [`attach_effect`]). Missing
    /// edges are made, in that direction, with new ids from `ids`.
    pub fn add_station(
        &mut self,
        map: &mut MetroMap,
        station: StationID,
        before: Option<StationID>,
        after: Option<StationID>,
        ids: &mut IDManager,
    )
        requires
            old(map)@.wf(),
            fresh_edge_ids(old(map)@, *old(ids)),
            old(ids).edge_counter() < u64::MAX - 1,
            before is Some ==> old(map)@.stations.contains_key(station.0)
                && old(map)@.stations.contains_key(before.unwrap().0),
            after is Some ==> old(map)@.stations.contains_key(station.0)
                && old(map)@.stations.contains_key(after.unwrap().0),
            before is Some && after is Some ==> {
                &&& line_edges_in(old(map)@, old(self)@)
                &&& old(self)@.edges.no_duplicates()
                &&& exists|i: int| edge_runs(old(map)@, old(self)@.edges, i, before->0, after->0)
            },
        ensures
            station_added(
                old(self)@,
                old(map)@,
                final(self)@,
                final(map)@,
                station,
                before,
                after,
                old(ids).edge_counter(),
            ),
            old(self)@.edges.no_duplicates() ==> final(self)@.edges.no_duplicates(),
            final(map)@.wf(),
            station_places_kept(old(map)@, final(map)@),
            fresh_edge_ids(final(map)@, *final(ids)),
            old(map)@.edges_attached() ==> final(map)@.edges_attached(),
            old(map)@.lines_valid() ==> final(map)@.lines_valid(),
            line_edges_in(old(map)@, old(self)@) ==> line_edges_in(final(map)@, final(self)@),
    {
        self.push_station_if_absent(station);
        let ghost l0 = self@;
        proof {
            assert forall|s: StationID| #[trigger] l0.stations.contains(s) <==> (old(self)@.stations.contains(s) || s == station) by {
                lemma_push_once_contains(old(self)@.stations, station, s);
            }
            assert(old(self)@.stations.is_prefix_of(l0.stations)) by {
                assert(old(self)@.stations =~= l0.stations.subrange(0, old(self)@.stations.len() as int));
            }
        }
        match (before, after) {
            (Some(b), Some(a)) => {
                proof {
                    let i = choose|i: int| edge_runs(old(map)@, old(self)@.edges, i, b, a);
                    assert(edge_runs(map@, self@.edges, i, b, a));
                }
                let (e1, e2) = self.split_run(map, station, b, a, ids);
                proof {
                    lemma_prefix_trans(old(self)@.stations, l0.stations, self@.stations);
                    assert(l0 == line_with_station(old(self)@, station));
                    assert(split_done(l0, old(map)@, self@, map@, station, b, a, e1, e2));
                }
            },
            (None, Some(a)) => {
                let ghost m0 = map@;
                let e = self.attach_between(map, station, a, ids);
                proof {
                    lemma_prefix_trans(old(self)@.stations, l0.stations, self@.stations);
                    assert(attach_effect(l0, self@, m0, map@, station, a, e, old(ids).edge_counter()));
                    assert(self@.edges == push_once(old(self)@.edges, e));
                    assert(l0 == line_with_station(old(self)@, station));
                    assert(map@.edges.contains_key(e.0));
                }
            },
            (Some(b), None) => {
                let ghost m0 = map@;
                let e = self.attach_between(map, b, station, ids);
                proof {
                    lemma_prefix_trans(old(self)@.stations, l0.stations, self@.stations);
                    assert(attach_effect(l0, self@, m0, map@, b, station, e, old(ids).edge_counter()));
                    assert(self@.edges == push_once(old(self)@.edges, e));
                    assert(l0 == line_with_station(old(self)@, station));
                    assert(map@.edges.contains_key(e.0));
                }
            },
            (None, None) => {},
        }
    }
}

impl Line {
    /// Take the first occurrence of the station off the line's stations.
    fn remove_first_station(&mut self, station: StationID)
        ensures
            final(self)@ == (LineView { stations: old(self)@.stations.remove_value(station), ..old(self)@ }),
    {
        let mut i: usize = 0;
        while i < self.stations.len()
            invariant
                i <= self.stations@.len(),
                self@ == old(self)@,
                forall|j: int| 0 <= j < i ==> self.stations@[j] != station,
            decreases self.stations@.len() - i,
        {
            if self.stations[i] == station {
                proof {
                    self.stations@.index_of_first_ensures(station);
                    assert(self.stations@.contains(station));
                    let f = self.stations@.index_of_first(station).unwrap();
                    if f < i {
                        assert(self.stations@[f] != station);
                    } else if f > i {
                        assert(self.stations@[i as int] != station);
                    }
                }
                self.stations.remove(i);
                return;
            }
            i = i + 1;
        }
        proof {
            self.stations@.index_of_first_ensures(station);
            if self.stations@.contains(station) {
                let f = self.stations@.index_of_first(station).unwrap();
                assert(self.stations@[f] != station);
            }
        }
    }

    /// Remove a station from the line. Its first occurrence leaves the
    /// line's stations; every edge of the line that touches it is taken off
    /// the line (and the map is told so, see [`MetroMap::removed_edge`]);
    /// then each two of the other ends of those edges, in the order of the
    /// edges, are joined on the line by the edge between them, which is made
    /// with a new id from `ids` where the map has none.
    pub fn remove_station(&mut self, map: &mut MetroMap, station: StationID, ids: &mut IDManager)
        requires
            old(map)@.wf(),
            old(map)@.edges_attached(),
            line_edges_in(old(map)@, old(self)@),
            old(self)@.edges.no_duplicates(),
            fresh_edge_ids(old(map)@, *old(ids)),
            old(ids).edge_counter() + old(self)@.edges.len() * old(self)@.edges.len() < u64::MAX,
        ensures
            final(self)@.id == old(self)@.id,
            final(self)@.name == old(self)@.name,
            final(self)@.color == old(self)@.color,
            old(self)@.stations.remove_value(station).is_prefix_of(final(self)@.stations),
            forall|s: StationID|
                #![trigger final(self)@.stations.contains(s)]
                final(self)@.stations.contains(s) ==> old(self)@.stations.remove_value(station).contains(s)
                    || ends_around(old(map)@, old(self)@.edges, station).contains(s),
            exists|new: Seq<EdgeID>|
                #![trigger push_all_once(edges_avoiding(old(map)@, old(self)@.edges, station), new)]
                {
                    let pairs = ordered_pairs(ends_around(old(map)@, old(self)@.edges, station));
                    &&& new.len() == pairs.len()
                    &&& final(self)@.stations == rejoined_stations(
                        old(self)@.stations.remove_value(station),
                        edges_avoiding(old(map)@, old(self)@.edges, station),
                        new,
                        final(map)@,
                    )
                    &&& final(self)@.edges == push_all_once(
                        edges_avoiding(old(map)@, old(self)@.edges, station),
                        new,
                    )
                    &&& forall|j: int|
                        0 <= j < new.len() ==> final(map)@.edges.contains_key(#[trigger] new[j].0)
                            && connects(final(map)@.edges[new[j].0], pairs[j].0, pairs[j].1)
                    &&& forall|j: int|
                        0 <= j < new.len() && !old(map)@.has_edge_between(pairs[j].0, pairs[j].1) && first_pair(pairs, j)
                            ==> final(map)@.edges[#[trigger] new[j].0].from == pairs[j].0
                            && final(map)@.edges[new[j].0].to == pairs[j].1
                    &&& forall|k: u64| #[trigger]
                        final(map)@.edges.contains_key(k) ==> old(map)@.edges.contains_key(k) || new.contains(EdgeID(k))
                },
            final(self)@.edges.no_duplicates(),
            forall|k: u64|
                #![trigger old(map)@.edges.contains_key(k)]
                old(map)@.edges.contains_key(k) && old(self)@.edges.contains(EdgeID(k)) && touches(
                    old(map)@,
                    EdgeID(k),
                    station,
                ) && lines_using(old(map)@, EdgeID(k), old(self)@.id).len() == 0 ==> !final(map)@.edges.contains_key(k),
            forall|k: u64|
                #![trigger old(map)@.edges.contains_key(k)]
                old(map)@.edges.contains_key(k) && lines_using(old(map)@, EdgeID(k), old(self)@.id).len() != 0
                    ==> final(map)@.edges.contains_key(k) && same_but_lines(old(map)@.edges[k], final(map)@.edges[k]),
            forall|k: u64|
                #![trigger old(map)@.edges.contains_key(k)]
                old(map)@.edges.contains_key(k) && !(old(self)@.edges.contains(EdgeID(k)) && touches(
                    old(map)@,
                    EdgeID(k),
                    station,
                )) ==> final(map)@.edges.contains_key(k) && same_but_lines(old(map)@.edges[k], final(map)@.edges[k]),
            final(map)@.wf(),
            final(map)@.edges_attached(),
            station_places_kept(old(map)@, final(map)@),
            fresh_edge_ids(final(map)@, *final(ids)),
            final(ids).edge_counter() <= old(ids).edge_counter() + old(self)@.edges.len() * old(self)@.edges.len(),
            old(map)@.lines_valid() ==> final(map)@.lines_valid(),
            line_edges_in(final(map)@, final(self)@),
            final(map)@.lines.dom() == old(map)@.lines.dom(),
            forall|k: u64|
                k != old(self)@.id.0 && #[trigger] old(map)@.lines.contains_key(k) ==> final(map)@.lines[k]
                    == old(map)@.lines[k],
    {
        let ghost m0 = map@;
        let ghost l0 = self@;
        self.remove_first_station(station);
        let ghost rv = self@.stations;
        let line_id = self.id;
        let mut ends: Vec<StationID> = Vec::new();
        let mut kept: Vec<EdgeID> = Vec::new();
        let n = self.edges.len();
        let mut i: usize = 0;
        proof {
            assert(l0.edges.take(0) =~= Seq::<EdgeID>::empty());
        }
        while i < n
            invariant
                i <= n,
                n == l0.edges.len(),
                self@ == (LineView { stations: rv, ..l0 }),
                line_id == l0.id,
                l0.edges.no_duplicates(),
                line_edges_in(m0, l0),
                ends@ == ends_around(m0, l0.edges.take(i as int), station),
                kept@ == edges_avoiding(m0, l0.edges.take(i as int), station),
                forall|q: int| 0 <= q < kept@.len() ==> l0.edges.take(i as int).contains(#[trigger] kept@[q]),
                forall|q: int| 0 <= q < kept@.len() ==> !touches(m0, #[trigger] kept@[q], station),
                map@.wf(),
                map@.edges_attached(),
                m0.lines_valid() ==> map@.lines_valid(),
                station_places_kept(m0, map@),
                forall|k: u64| #[trigger] map@.edges.contains_key(k) ==> m0.edges.contains_key(k),
                map@.lines.dom() == m0.lines.dom(),
                forall|k: u64| k != l0.id.0 && #[trigger] m0.lines.contains_key(k) ==> map@.lines[k] == m0.lines[k],
                forall|k: u64|
                    #![trigger m0.edges.contains_key(k)]
                    m0.edges.contains_key(k) && !(l0.edges.take(i as int).contains(EdgeID(k)) && touches(
                        m0,
                        EdgeID(k),
                        station,
                    )) ==> map@.edges.contains_key(k) && map@.edges[k] == m0.edges[k],
                forall|k: u64|
                    #![trigger m0.edges.contains_key(k)]
                    m0.edges.contains_key(k) && l0.edges.take(i as int).contains(EdgeID(k)) && touches(
                        m0,
                        EdgeID(k),
                        station,
                    ) && lines_using(m0, EdgeID(k), l0.id).len() == 0 ==> !map@.edges.contains_key(k),
                forall|k: u64|
                    #![trigger m0.edges.contains_key(k)]
                    m0.edges.contains_key(k) && lines_using(m0, EdgeID(k), l0.id).len() != 0 ==> map@.edges.contains_key(k)
                        && same_but_lines(m0.edges[k], map@.edges[k]),
                forall|k: u64| #[trigger]
                    map@.edges.contains_key(k) ==> map@.edges[k].from == m0.edges[k].from && map@.edges[k].to
                        == m0.edges[k].to,
            decreases n - i,
        {
            let edge_id = self.edges[i];
            let ghost before = map@;
            proof {
                assert(m0.edges.contains_key(l0.edges[i as int].0));
                if l0.edges.take(i as int).contains(edge_id) {
                    let p = choose|p: int| 0 <= p < i && #[trigger] l0.edges.take(i as int)[p] == edge_id;
                    assert(l0.edges[p] == l0.edges[i as int]);
                }
                assert(map@.edges[edge_id.0] == m0.edges[edge_id.0]);
                assert(l0.edges.take(i + 1).drop_last() =~= l0.edges.take(i as int));
                assert(l0.edges.take(i + 1).last() == edge_id);
                assert forall|e: EdgeID| l0.edges.take(i as int).contains(e) implies #[trigger] l0.edges.take(i + 1).contains(e) by {
                    let p = choose|p: int| 0 <= p < i && #[trigger] l0.edges.take(i as int)[p] == e;
                    assert(l0.edges.take(i + 1)[p] == e);
                }
                assert(l0.edges.take(i + 1)[i as int] == edge_id);
            }
            let (from, to) = match map.get_edge(edge_id) {
                Some(e) => (e.get_from(), e.get_to()),
                None => (station, station),
            };
            proof {
                assert(lines_using(before, edge_id, line_id) =~= lines_using(m0, edge_id, line_id));
            }
            if to == station {
                ends.push(from);
                map.removed_edge(edge_id, line_id);
            } else if from == station {
                ends.push(to);
                map.removed_edge(edge_id, line_id);
            } else {
                kept.push(edge_id);
            }
            proof {
                let t = l0.edges.take(i + 1);
                assert forall|k: u64| #![trigger m0.edges.contains_key(k)]
                    m0.edges.contains_key(k) && !(t.contains(EdgeID(k)) && touches(m0, EdgeID(k), station))
                    implies map@.edges.contains_key(k) && map@.edges[k] == m0.edges[k] by {
                    if k == edge_id.0 {
                        assert(t.contains(edge_id));
                    } else {
                        if l0.edges.take(i as int).contains(EdgeID(k)) {
                            let p = choose|p: int| 0 <= p < i && #[trigger] l0.edges.take(i as int)[p] == EdgeID(k);
                            assert(t[p] == EdgeID(k));
                        }
                        assert(before.edges.contains_key(k));
                    }
                }
                assert forall|k: u64|
                    #![trigger m0.edges.contains_key(k)]
                    m0.edges.contains_key(k) && t.contains(EdgeID(k)) && touches(m0, EdgeID(k), station)
                        && lines_using(m0, EdgeID(k), l0.id).len() == 0 implies !map@.edges.contains_key(k) by {
                    if k != edge_id.0 {
                        let p = choose|p: int| 0 <= p < t.len() && #[trigger] t[p] == EdgeID(k);
                        assert(p != i);
                        assert(l0.edges.take(i as int)[p] == EdgeID(k));
                        assert(!before.edges.contains_key(k));
                    }
                }
                assert forall|k: u64|
                    #![trigger m0.edges.contains_key(k)]
                    m0.edges.contains_key(k) && lines_using(m0, EdgeID(k), l0.id).len() != 0 implies map@.edges.contains_key(k)
                        && same_but_lines(m0.edges[k], map@.edges[k]) by {
                    assert(before.edges.contains_key(k));
                    if k == edge_id.0 {
                        assert(lines_using(before, edge_id, line_id) == lines_using(m0, EdgeID(k), l0.id));
                    }
                }
            }
            i = i + 1;
        }
        proof {
            assert(l0.edges.take(n as int) =~= l0.edges);
            lemma_ends_around_attached(m0, l0.edges, station);
            lemma_ends_around_len(m0, l0.edges, station);
        }
        let ghost ends_all = ends@;
        let ghost kept_all = kept@;
        self.edges = kept;
        proof {
            assert(line_edges_in(map@, self@)) by {
                assert forall|q: int| 0 <= q < self@.edges.len() implies map@.edges.contains_key(#[trigger] self@.edges[q].0) by {
                    let e = kept_all[q];
                    let p = choose|p: int| 0 <= p < n && #[trigger] l0.edges.take(n as int)[p] == e;
                    assert(l0.edges[p] == e);
                    assert(m0.edges.contains_key(e.0));
                    if l0.edges.contains(EdgeID(e.0)) && touches(m0, EdgeID(e.0), station) {
                        assert(!touches(m0, kept_all[q], station));
                    }
                }
            }
            lemma_edges_avoiding_distinct(m0, l0.edges, station);
        }
        let pairs = pairs_of(ends);
        let ghost mut new: Seq<EdgeID> = Seq::empty();
        let ghost c0 = ids.edge_counter();
        proof {
            lemma_ordered_pairs_len(ends_all);
            assert(ends_all.len() * ends_all.len() <= n * n) by (nonlinear_arith)
                requires
                    ends_all.len() <= n,
            ;
        }
        let mut j: usize = 0;
        while j < pairs.len()
            invariant
                j <= pairs@.len(),
                pairs@ == ordered_pairs(ends_all),
                ends_all == ends_around(m0, l0.edges, station),
                kept_all == edges_avoiding(m0, l0.edges, station),
                new.len() == j,
                self@.edges == push_all_once(kept_all, new),
                self@.stations == rejoined_stations(rv, kept_all, new, map@),
                self@.edges.no_duplicates(),
                self@.id == l0.id,
                self@.name == l0.name,
                self@.color == l0.color,
                rv == l0.stations.remove_value(station),
                rv.is_prefix_of(self@.stations),
                forall|s: StationID| #[trigger] self@.stations.contains(s) ==> rv.contains(s) || ends_all.contains(s),
                forall|s: StationID| ends_all.contains(s) ==> #[trigger] m0.stations.contains_key(s.0),
                forall|q: int|
                    0 <= q < j ==> map@.edges.contains_key(#[trigger] new[q].0) && connects(
                        map@.edges[new[q].0],
                        pairs@[q].0,
                        pairs@[q].1,
                    ),
                map@.wf(),
                map@.edges_attached(),
                m0.lines_valid() ==> map@.lines_valid(),
                station_places_kept(m0, map@),
                fresh_edge_ids(map@, *ids),
                ids.edge_counter() <= c0 + j,
                map@.lines.dom() == m0.lines.dom(),
                forall|k: u64| k != l0.id.0 && #[trigger] m0.lines.contains_key(k) ==> map@.lines[k] == m0.lines[k],
                c0 + pairs@.len() < u64::MAX,
                c0 <= ids.edge_counter(),
                forall|k: u64| #[trigger] m0.edges.contains_key(k) ==> k < c0,
                line_edges_in(map@, self@),
                forall|k: u64| #[trigger] map@.edges.contains_key(k) ==> m0.edges.contains_key(k) || new.contains(EdgeID(k)),
                forall|k: u64| #[trigger]
                    map@.edges.contains_key(k) && m0.edges.contains_key(k) ==> map@.edges[k].from == m0.edges[k].from
                        && map@.edges[k].to == m0.edges[k].to,
                forall|q: int|
                    0 <= q < j && !m0.has_edge_between(pairs@[q].0, pairs@[q].1) && first_pair(pairs@, q)
                        ==> map@.edges[#[trigger] new[q].0].from == pairs@[q].0 && map@.edges[new[q].0].to == pairs@[q].1,
                forall|k: u64|
                    #![trigger m0.edges.contains_key(k)]
                    m0.edges.contains_key(k) && l0.edges.contains(EdgeID(k)) && touches(m0, EdgeID(k), station)
                        && lines_using(m0, EdgeID(k), l0.id).len() == 0 ==> !map@.edges.contains_key(k),
                forall|k: u64|
                    #![trigger m0.edges.contains_key(k)]
                    m0.edges.contains_key(k) && lines_using(m0, EdgeID(k), l0.id).len() != 0 ==> map@.edges.contains_key(k)
                        && same_but_lines(m0.edges[k], map@.edges[k]),
                forall|k: u64|
                    #![trigger m0.edges.contains_key(k)]
                    m0.edges.contains_key(k) && !(l0.edges.contains(EdgeID(k)) && touches(
                        m0,
                        EdgeID(k),
                        station,
                    )) ==> map@.edges.contains_key(k) && same_but_lines(m0.edges[k], map@.edges[k]),
            decreases pairs@.len() - j,
        {
            let (x, y) = pairs[j];
            proof {
                lemma_ordered_pairs_members(ends_all, j as int);
                assert(m0.stations.contains_key(x.0));
                assert(m0.stations.contains_key(y.0));
            }
            let ghost m_before = map@;
            let ghost st_before = self@.stations;
            let ghost c_before = ids.edge_counter();
            let ghost new_before = new;
            proof {
                if !m0.has_edge_between(x, y) && first_pair(pairs@, j as int) {
                    assert(!m_before.has_edge_between(x, y)) by {
                        if m_before.has_edge_between(x, y) {
                            let kk = choose|kk: u64| #[trigger] m_before.edges.contains_key(kk) && connects(m_before.edges[kk], x, y);
                            if m0.edges.contains_key(kk) {
                                assert(connects(m0.edges[kk], x, y));
                                assert(m0.has_edge_between(x, y));
                            } else {
                                assert(new.contains(EdgeID(kk)));
                                let q = choose|q: int| 0 <= q < new.len() && new[q] == EdgeID(kk);
                                assert(connects(m_before.edges[new[q].0], pairs@[q].0, pairs@[q].1));
                                assert(!first_pair(pairs@, j as int));
                            }
                        }
                    }
                }
            }
            let ghost l_before = self@;
            let e = self.attach_between(map, x, y, ids);
            proof {
                assert forall|q: int| 0 <= q < new.len() implies m_before.edges.contains_key(#[trigger] new[q].0) && map@.edges.contains_key(new[q].0)
                    && m_before.edges[new[q].0].from == map@.edges[new[q].0].from && m_before.edges[new[q].0].to == map@.edges[new[q].0].to by {
                    assert(m_before.edges.contains_key(new[q].0));
                }
                lemma_stations_after_same(rv, kept_all, new, m_before, map@);
                assert(new.push(e).drop_last() =~= new);
                assert(self@.stations == rejoined_stations(rv, kept_all, new.push(e), map@));
                assert forall|k: u64|
                    #![trigger m0.edges.contains_key(k)]
                    m0.edges.contains_key(k) && l0.edges.contains(EdgeID(k)) && touches(m0, EdgeID(k), station)
                        && lines_using(m0, EdgeID(k), l0.id).len() == 0 implies !map@.edges.contains_key(k) by {
                    assert(k < c0);
                    assert(!m_before.edges.contains_key(k));
                }
                assert forall|k: u64|
                    #![trigger m0.edges.contains_key(k)]
                    m0.edges.contains_key(k) && lines_using(m0, EdgeID(k), l0.id).len() != 0 implies map@.edges.contains_key(k)
                        && same_but_lines(m0.edges[k], map@.edges[k]) by {
                    assert(m_before.edges.contains_key(k));
                }
                let new1 = new.push(e);
                assert(new1.drop_last() =~= new);
                new = new1;
                lemma_places_kept_trans(m0, m_before, map@);
                assert(rv =~= self@.stations.subrange(0, rv.len() as int)) by {
                    assert(rv =~= st_before.subrange(0, rv.len() as int));
                    assert(st_before =~= self@.stations.subrange(0, st_before.len() as int));
                }
                assert forall|q: int| 0 <= q < j + 1 implies map@.edges.contains_key(#[trigger] new[q].0) && connects(
                    map@.edges[new[q].0], pairs@[q].0, pairs@[q].1) by {
                    if q < j {
                        assert(m_before.edges.contains_key(new[q].0));
                    }
                }
                assert forall|k: u64| #[trigger] map@.edges.contains_key(k) implies m0.edges.contains_key(k) || new.contains(EdgeID(k)) by {
                    if k == e.0 {
                        assert(new[j as int] == e);
                    } else {
                        assert(m_before.edges.contains_key(k));
                        if !m0.edges.contains_key(k) {
                            let q = choose|q: int| 0 <= q < new_before.len() && new_before[q] == EdgeID(k);
                            assert(new[q] == EdgeID(k));
                        }
                    }
                }
                assert forall|k: u64| #[trigger] map@.edges.contains_key(k) && m0.edges.contains_key(k) implies map@.edges[k].from
                    == m0.edges[k].from && map@.edges[k].to == m0.edges[k].to by {
                    assert(k < c0);
                    assert(m_before.edges.contains_key(k));
                }
                assert forall|q: int|
                    0 <= q < j + 1 && !m0.has_edge_between(pairs@[q].0, pairs@[q].1) && first_pair(pairs@, q)
                        implies map@.edges[#[trigger] new[q].0].from == pairs@[q].0 && map@.edges[new[q].0].to == pairs@[q].1 by {
                    if q < j {
                        assert(m_before.edges.contains_key(new[q].0));
                        assert(new[q] == new_before[q]);
                    }
                }
            }
            j = j + 1;
        }
        proof {
            assert(c0 == old(ids).edge_counter());
            assert(pairs@.len() <= n * n);
        }
    }
}

/// The other ends of edges of the map touching `s` are stations of the map.
proof fn lemma_ends_around_attached(m: MetroMapView, es: Seq<EdgeID>, s: StationID)
    requires
        m.edges_attached(),
        forall|i: int| 0 <= i < es.len() ==> m.edges.contains_key(#[trigger] es[i].0),
    ensures
        forall|x: StationID| ends_around(m, es, s).contains(x) ==> #[trigger] m.stations.contains_key(x.0),
    decreases es.len(),
{
    if es.len() > 0 {
        let d = es.drop_last();
        assert forall|i: int| 0 <= i < d.len() implies m.edges.contains_key(#[trigger] d[i].0) by {
            assert(d[i] == es[i]);
        }
        lemma_ends_around_attached(m, d, s);
        assert(m.edges.contains_key(es.last().0));
        assert forall|x: StationID| ends_around(m, es, s).contains(x) implies #[trigger] m.stations.contains_key(x.0) by {
            if touches(m, es.last(), s) {
                lemma_push_contains(ends_around(m, d, s), other_end(m, es.last(), s), x);
            }
        }
    }
}

/// There are at most as many other ends as edges.
proof fn lemma_ends_around_len(m: MetroMapView, es: Seq<EdgeID>, s: StationID)
    ensures
        ends_around(m, es, s).len() <= es.len(),
    decreases es.len(),
{
    if es.len() > 0 {
        lemma_ends_around_len(m, es.drop_last(), s);
    }
}

/// The edges avoiding a station, out of distinct edges, are distinct.
proof fn lemma_edges_avoiding_distinct(m: MetroMapView, es: Seq<EdgeID>, s: StationID)
    requires
        es.no_duplicates(),
    ensures
        edges_avoiding(m, es, s).no_duplicates(),
        forall|e: EdgeID| #[trigger] edges_avoiding(m, es, s).contains(e) ==> es.contains(e),
    decreases es.len(),
{
    if es.len() > 0 {
        let d = es.drop_last();
        assert forall|a: int, b: int| 0 <= a < b < d.len() implies d[a] != d[b] by {
            assert(d[a] == es[a] && d[b] == es[b]);
        }
        lemma_edges_avoiding_distinct(m, d, s);
        let w = edges_avoiding(m, d, s);
        assert forall|e: EdgeID| #[trigger] edges_avoiding(m, es, s).contains(e) implies es.contains(e) by {
            if !touches(m, es.last(), s) {
                lemma_push_contains(w, es.last(), e);
            }
            if w.contains(e) {
                let p = choose|p: int| 0 <= p < d.len() && d[p] == e;
                assert(es[p] == e);
            }
        }
        if !touches(m, es.last(), s) {
            if w.contains(es.last()) {
                let p = choose|p: int| 0 <= p < d.len() && d[p] == es.last();
                assert(es[p] == es[es.len() - 1]);
            }
            assert forall|a: int, b: int| 0 <= a < b < w.push(es.last()).len() implies w.push(es.last())[a]
                != w.push(es.last())[b] by {
                if b == w.len() {
                    assert(w.contains(w[a]));
                }
            }
        }
    }
}

/// There are fewer pairs than the square of the number of elements.
proof fn lemma_ordered_pairs_len(s: Seq<StationID>)
    ensures
        ordered_pairs(s).len() <= s.len() * s.len(),
    decreases s.len(),
{
    if s.len() > 0 {
        let t = s.drop_first();
        lemma_ordered_pairs_len(t);
        assert(ordered_pairs(s).len() == t.len() + ordered_pairs(t).len());
        assert(t.len() + t.len() * t.len() <= s.len() * s.len()) by (nonlinear_arith)
            requires
                t.len() + 1 == s.len(),
        ;
    }
}

/// Both stations of each pair are among the elements.
proof fn lemma_ordered_pairs_members(s: Seq<StationID>, q: int)
    requires
        0 <= q < ordered_pairs(s).len(),
    ensures
        s.contains(ordered_pairs(s)[q].0),
        s.contains(ordered_pairs(s)[q].1),
    decreases s.len(),
{
    let t = s.drop_first();
    let a = t.map_values(|x: StationID| (s[0], x));
    if q < a.len() {
        assert(ordered_pairs(s)[q] == a[q]);
        assert(s[0] == a[q].0);
        assert(s[q + 1] == t[q]);
    } else {
        assert(ordered_pairs(s)[q] == ordered_pairs(t)[q - a.len()]);
        lemma_ordered_pairs_members(t, q - a.len());
        let x = ordered_pairs(t)[q - a.len()];
        let i = choose|i: int| 0 <= i < t.len() && t[i] == x.0;
        assert(s[i + 1] == x.0);
        let k = choose|i: int| 0 <= i < t.len() && t[i] == x.1;
        assert(s[k + 1] == x.1);
    }
}

impl PartialEq for Line {
    fn eq(&self, other: &Line) -> (r: bool) {
        self.id == other.id
    }
}

impl vstd::std_specs::cmp::PartialEqSpecImpl for Line {
    open spec fn obeys_eq_spec() -> bool {
        true
    }

    open spec fn eq_spec(&self, other: &Line) -> bool {
        self@.id == other@.id
    }
}

} // verus!
