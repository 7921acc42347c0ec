//! What a [`Line`] looks like on the map: the stations around a station, the
//! ends of the line and the grid nodes it passes.
use vstd::prelude::*;

use super::ids::{
    EdgeID,
    LineID,
    StationID,
};
use super::line::{
    line_edges_in,
    Line,
    LineView,
};
use super::grid_node::{
    neighbors_of,
    GridNode,
};
use super::map::{
    edge_visits,
    lemma_push_contains,
    neighboring_stations,
    stations_inside_grid,
    MetroMap,
    MetroMapView,
};
use super::station::seq_without;

verus! {

/// The start of each of the edges, in order, that ends at `s` without
/// starting there.
pub open spec fn stations_before(m: MetroMapView, es: Seq<EdgeID>, s: StationID) -> Seq<StationID>
    decreases es.len(),
{
    if es.len() == 0 {
        Seq::empty()
    } else {
        let p = stations_before(m, es.drop_last(), s);
        let e = m.edges[es.last().0];
        if e.from != s && e.to == s {
            p.push(e.from)
        } else {
            p
        }
    }
}

/// The end of each of the edges, in order, that starts at `s`.
pub open spec fn stations_after(m: MetroMapView, es: Seq<EdgeID>, s: StationID) -> Seq<StationID>
    decreases es.len(),
{
    if es.len() == 0 {
        Seq::empty()
    } else {
        let p = stations_after(m, es.drop_last(), s);
        let e = m.edges[es.last().0];
        if e.from == s {
            p.push(e.to)
        } else {
            p
        }
    }
}

/// The stations at the ends of the edges, in order: the start and then the
/// end of each edge.
pub open spec fn edge_endpoints(m: MetroMapView, es: Seq<EdgeID>) -> Seq<StationID>
    decreases es.len(),
{
    if es.len() == 0 {
        Seq::empty()
    } else {
        let e = m.edges[es.last().0];
        edge_endpoints(m, es.drop_last()).push(e.from).push(e.to)
    }
}

/// How often `x` occurs in `s`.
pub open spec fn occurrences(s: Seq<StationID>, x: StationID) -> nat
    decreases s.len(),
{
    if s.len() == 0 {
        0
    } else {
        occurrences(s.drop_last(), x) + if s.last() == x {
            1nat
        } else {
            0nat
        }
    }
}

/// The elements of `p`, in order, that occur exactly once in `full`.
pub open spec fn once_in(p: Seq<StationID>, full: Seq<StationID>) -> Seq<StationID>
    decreases p.len(),
{
    if p.len() == 0 {
        p
    } else if occurrences(full, p.last()) == 1 {
        once_in(p.drop_last(), full).push(p.last())
    } else {
        once_in(p.drop_last(), full)
    }
}

/// The ends of the line: its stations where it has no stations or no edges;
/// else the stations that occur exactly once among the ends of its edges,
/// in the order of the edges.
pub open spec fn line_ends(m: MetroMapView, l: LineView) -> Seq<StationID> {
    if l.stations.len() == 0 || l.edges.len() == 0 {
        l.stations
    } else {
        once_in(edge_endpoints(m, l.edges), edge_endpoints(m, l.edges))
    }
}

/// If the line passes the node: one of its edges goes through it, or it is
/// one of the eight nodes around a station at an end of the line.
pub open spec fn line_visits(m: MetroMapView, l: LineView, node: GridNode) -> bool {
    ||| exists|i: int| 0 <= i < l.edges.len() && #[trigger] edge_visits(m, m.edges[l.edges[i].0], node)
    ||| exists|j: int|
        0 <= j < line_ends(m, l).len() && neighbors_of(m.stations[#[trigger] line_ends(m, l)[j].0].pos).contains(node)
}

/// The scan of the edges for the stations around the node: once an edge has
/// stations on both sides (the first part is then `true`) it is kept;
/// before that, each edge of the map with a station on one side replaces
/// what was found so far.
pub open spec fn edge_stations_scan(m: MetroMapView, es: Seq<EdgeID>, node: GridNode) -> (bool, (
    Option<StationID>,
    Option<StationID>,
))
    decreases es.len(),
{
    if es.len() == 0 {
        (false, (None, None))
    } else {
        let p = edge_stations_scan(m, es.drop_last(), node);
        if p.0 || !m.edges.contains_key(es.last().0) {
            p
        } else {
            let r = neighboring_stations(m, m.edges[es.last().0], node);
            if r.0 is Some && r.1 is Some {
                (true, r)
            } else if r.0 is Some || r.1 is Some {
                (false, r)
            } else {
                p
            }
        }
    }
}

/// The stations on either side of the node on the line. A line with one
/// station has that station before the node if the node is next to it. A
/// line without stations or edges has none. Otherwise: the stations around
/// the node on the first edge of the line that has a station on both sides
/// of it; if there is no such edge, those on the last edge that has one.
pub open spec fn edge_stations(m: MetroMapView, l: LineView, node: GridNode) -> (
    Option<StationID>,
    Option<StationID>,
) {
    if l.stations.len() == 1 {
        let k = l.stations[0].0;
        if m.stations.contains_key(k) && neighbors_of(m.stations[k].pos).contains(node) {
            (Some(m.stations[k].id), None)
        } else {
            (None, None)
        }
    } else if l.stations.len() == 0 || l.edges.len() == 0 {
        (None, None)
    } else {
        edge_stations_scan(m, l.edges, node).1
    }
}

/// If the edge ends at `s` without starting there.
pub open spec fn enters(m: MetroMapView, s: StationID) -> spec_fn(EdgeID) -> bool {
    |e: EdgeID| m.edges[e.0].to == s && m.edges[e.0].from != s
}

/// If the edge starts at `s`.
pub open spec fn leaves(m: MetroMapView, s: StationID) -> spec_fn(EdgeID) -> bool {
    |e: EdgeID| m.edges[e.0].from == s
}

/// The start of an edge.
pub open spec fn start_of(m: MetroMapView) -> spec_fn(EdgeID) -> StationID {
    |e: EdgeID| m.edges[e.0].from
}

/// The end of an edge.
pub open spec fn end_of(m: MetroMapView) -> spec_fn(EdgeID) -> StationID {
    |e: EdgeID| m.edges[e.0].to
}

/// The stations before `s` (see [`Line::get_station_neighbors`]) are the
/// starts of the edges that end at `s` without starting there, in the order
/// of the edges, wherever the edges that start at `s` stand; the stations
/// after it are the ends of the edges that start at `s`, in order.
pub proof fn lemma_station_neighbors_of_edges(m: MetroMapView, es: Seq<EdgeID>, s: StationID)
    ensures
        stations_before(m, es, s) == es.filter(enters(m, s)).map_values(start_of(m)),
        stations_after(m, es, s) == es.filter(leaves(m, s)).map_values(end_of(m)),
        forall|i: int|
            0 <= i < es.len() && m.edges[#[trigger] es[i].0].to == s && m.edges[es[i].0].from != s
                ==> stations_before(m, es, s).contains(m.edges[es[i].0].from),
        forall|i: int|
            0 <= i < es.len() && m.edges[#[trigger] es[i].0].from == s ==> stations_after(m, es, s).contains(
                m.edges[es[i].0].to,
            ),
        forall|x: StationID| #[trigger]
            stations_before(m, es, s).contains(x) ==> exists|i: int|
                0 <= i < es.len() && m.edges[#[trigger] es[i].0].to == s && m.edges[es[i].0].from != s
                    && m.edges[es[i].0].from == x,
    decreases es.len(),
{
    reveal(Seq::filter);
    if es.len() == 0 {
        assert(es.filter(enters(m, s)).map_values(start_of(m)) =~= Seq::<StationID>::empty());
        assert(es.filter(leaves(m, s)).map_values(end_of(m)) =~= Seq::<StationID>::empty());
    } else {
        let d = es.drop_last();
        let x = es.last();
        lemma_station_neighbors_of_edges(m, d, s);
        assert(es.filter(enters(m, s)) == if enters(m, s)(x) {
            d.filter(enters(m, s)).push(x)
        } else {
            d.filter(enters(m, s))
        });
        assert(es.filter(leaves(m, s)) == if leaves(m, s)(x) {
            d.filter(leaves(m, s)).push(x)
        } else {
            d.filter(leaves(m, s))
        });
        assert(d.filter(enters(m, s)).push(x).map_values(start_of(m)) =~= d.filter(enters(m, s)).map_values(
            start_of(m),
        ).push(m.edges[x.0].from));
        assert(d.filter(leaves(m, s)).push(x).map_values(end_of(m)) =~= d.filter(leaves(m, s)).map_values(
            end_of(m),
        ).push(m.edges[x.0].to));
        let b = stations_before(m, es, s);
        let bd = stations_before(m, d, s);
        assert forall|i: int|
            0 <= i < es.len() && m.edges[#[trigger] es[i].0].to == s && m.edges[es[i].0].from != s implies b.contains(
            m.edges[es[i].0].from) by {
            if i < d.len() {
                assert(d[i] == es[i]);
                let q = choose|q: int| 0 <= q < bd.len() && bd[q] == m.edges[d[i].0].from;
                assert(b[q] == bd[q]);
            } else {
                assert(b[b.len() - 1] == m.edges[x.0].from);
            }
        }
        let a = stations_after(m, es, s);
        let ad = stations_after(m, d, s);
        assert forall|i: int| 0 <= i < es.len() && m.edges[#[trigger] es[i].0].from == s implies a.contains(
            m.edges[es[i].0].to) by {
            if i < d.len() {
                assert(d[i] == es[i]);
                let q = choose|q: int| 0 <= q < ad.len() && ad[q] == m.edges[d[i].0].to;
                assert(a[q] == ad[q]);
            } else {
                assert(a[a.len() - 1] == m.edges[x.0].to);
            }
        }
        assert forall|y: StationID| #[trigger] b.contains(y) implies exists|i: int|
            0 <= i < es.len() && m.edges[#[trigger] es[i].0].to == s && m.edges[es[i].0].from != s
                && m.edges[es[i].0].from == y by {
            let q = choose|q: int| 0 <= q < b.len() && b[q] == y;
            if q < bd.len() {
                assert(bd[q] == y);
                assert(bd.contains(y));
                let i = choose|i: int|
                    0 <= i < d.len() && m.edges[#[trigger] d[i].0].to == s && m.edges[d[i].0].from != s
                        && m.edges[d[i].0].from == y;
                assert(es[i] == d[i]);
            } else {
                assert(es[es.len() - 1] == x);
            }
        }
    }
}

/// Over edges none of whose nodes is `node`, the scan settles on nothing,
/// and it ends with what the last edge with a station next to the node sees,
/// or with nothing if there is no such edge.
proof fn lemma_scan_one_sided(m: MetroMapView, es: Seq<EdgeID>, node: GridNode)
    requires
        forall|j: int|
            0 <= j < es.len() && m.edges.contains_key(#[trigger] es[j].0) ==> !m.edges[es[j].0].nodes.contains(node),
    ensures
        !edge_stations_scan(m, es, node).0,
        forall|i: int|
            0 <= i < es.len() && m.edges.contains_key(#[trigger] es[i].0) && neighboring_stations(m, m.edges[es[i].0], node)
                != (None::<StationID>, None::<StationID>) && (forall|j: int|
                i < j < es.len() && m.edges.contains_key(#[trigger] es[j].0) ==> neighboring_stations(
                    m,
                    m.edges[es[j].0],
                    node,
                ) == (None::<StationID>, None::<StationID>)) ==> edge_stations_scan(m, es, node).1 == neighboring_stations(
                m,
                m.edges[es[i].0],
                node,
            ),
        (forall|j: int|
            0 <= j < es.len() && m.edges.contains_key(#[trigger] es[j].0) ==> neighboring_stations(m, m.edges[es[j].0], node)
                == (None::<StationID>, None::<StationID>)) ==> edge_stations_scan(m, es, node).1 == (
            None::<StationID>,
            None::<StationID>,
        ),
    decreases es.len(),
{
    if es.len() > 0 {
        let d = es.drop_last();
        let n = es.len() - 1;
        assert forall|j: int| 0 <= j < d.len() && m.edges.contains_key(#[trigger] d[j].0) implies !m.edges[d[j].0].nodes.contains(node) by {
            assert(d[j] == es[j]);
        }
        lemma_scan_one_sided(m, d, node);
        assert(es.last() == es[n]);
        assert forall|i: int|
            0 <= i < es.len() && m.edges.contains_key(#[trigger] es[i].0) && neighboring_stations(m, m.edges[es[i].0], node)
                != (None::<StationID>, None::<StationID>) && (forall|j: int|
                i < j < es.len() && m.edges.contains_key(#[trigger] es[j].0) ==> neighboring_stations(
                    m,
                    m.edges[es[j].0],
                    node,
                ) == (None::<StationID>, None::<StationID>)) implies edge_stations_scan(m, es, node).1 == neighboring_stations(
                m,
                m.edges[es[i].0],
                node,
            ) by {
            if i < n {
                assert(d[i] == es[i]);
                assert forall|j: int| i < j < d.len() && m.edges.contains_key(#[trigger] d[j].0) implies neighboring_stations(
                    m, m.edges[d[j].0], node) == (None::<StationID>, None::<StationID>) by {
                    assert(d[j] == es[j]);
                }
                if m.edges.contains_key(es[n].0) {
                    assert(neighboring_stations(m, m.edges[es[n].0], node) == (None::<StationID>, None::<StationID>));
                }
            }
        }
        if forall|j: int|
            0 <= j < es.len() && m.edges.contains_key(#[trigger] es[j].0) ==> neighboring_stations(m, m.edges[es[j].0], node)
                == (None::<StationID>, None::<StationID>) {
            assert forall|j: int| 0 <= j < d.len() && m.edges.contains_key(#[trigger] d[j].0) implies neighboring_stations(
                m, m.edges[d[j].0], node) == (None::<StationID>, None::<StationID>) by {
                assert(d[j] == es[j]);
            }
        }
    }
}

/// Where the node lies on none of the nodes of the line's edges, the
/// stations around it are those that the last edge of the line with a
/// station next to the node sees: next to that edge's start, the start is
/// after the node; else, next to its end, the end is before it.
pub proof fn lemma_edge_stations_next_to_station(m: MetroMapView, l: LineView, node: GridNode, i: int)
    requires
        l.stations.len() >= 2,
        0 <= i < l.edges.len(),
        m.edges.contains_key(l.edges[i].0),
        forall|j: int|
            0 <= j < l.edges.len() && m.edges.contains_key(#[trigger] l.edges[j].0) ==> !m.edges[l.edges[j].0].nodes.contains(
                node,
            ),
        neighboring_stations(m, m.edges[l.edges[i].0], node) != (None::<StationID>, None::<StationID>),
        forall|j: int|
            i < j < l.edges.len() && m.edges.contains_key(#[trigger] l.edges[j].0) ==> neighboring_stations(
                m,
                m.edges[l.edges[j].0],
                node,
            ) == (None::<StationID>, None::<StationID>),
    ensures
        ({
            let e = m.edges[l.edges[i].0];
            &&& m.stations.contains_key(e.from.0) && neighbors_of(m.stations[e.from.0].pos).contains(node)
                ==> edge_stations(m, l, node) == (None::<StationID>, Some(e.from))
            &&& !(m.stations.contains_key(e.from.0) && neighbors_of(m.stations[e.from.0].pos).contains(node))
                ==> edge_stations(m, l, node) == (Some(e.to), None::<StationID>)
        }),
{
    lemma_scan_one_sided(m, l.edges, node);
}

/// Where the node lies on no edge of the line and next to no station at an
/// end of an edge of the line, no station is on either side of it.
pub proof fn lemma_edge_stations_far(m: MetroMapView, l: LineView, node: GridNode)
    requires
        l.stations.len() >= 2,
        forall|j: int|
            0 <= j < l.edges.len() && m.edges.contains_key(#[trigger] l.edges[j].0) ==> neighboring_stations(
                m,
                m.edges[l.edges[j].0],
                node,
            ) == (None::<StationID>, None::<StationID>),
    ensures
        edge_stations(m, l, node) == (None::<StationID>, None::<StationID>),
{
    assert forall|j: int| 0 <= j < l.edges.len() && m.edges.contains_key(#[trigger] l.edges[j].0) implies !m.edges[l.edges[j].0].nodes.contains(node) by {
        if m.edges[l.edges[j].0].nodes.contains(node) {
            assert(neighboring_stations(m, m.edges[l.edges[j].0], node).0 is Some);
        }
    }
    lemma_scan_one_sided(m, l.edges, node);
}

/// Once both sides are found, further edges change nothing.
proof fn lemma_scan_settled(m: MetroMapView, es: Seq<EdgeID>, k: int, node: GridNode)
    requires
        0 <= k <= es.len(),
        edge_stations_scan(m, es.take(k), node).0,
    ensures
        edge_stations_scan(m, es, node) == edge_stations_scan(m, es.take(k), node),
    decreases es.len() - k,
{
    if k < es.len() {
        assert(es.take(k + 1).drop_last() =~= es.take(k));
        lemma_scan_settled(m, es, k + 1, node);
    } else {
        assert(es.take(k) =~= es);
    }
}

/// Where the node lies on the nodes of an edge of the line, the stations
/// around it are the start and the end of the first such edge.
pub proof fn lemma_edge_stations_on_edge(m: MetroMapView, l: LineView, node: GridNode, i: int)
    requires
        l.stations.len() >= 2,
        0 <= i < l.edges.len(),
        m.edges.contains_key(l.edges[i].0),
        m.edges[l.edges[i].0].nodes.contains(node),
        forall|j: int|
            0 <= j < i && m.edges.contains_key(#[trigger] l.edges[j].0) ==> !m.edges[l.edges[j].0].nodes.contains(node),
    ensures
        edge_stations(m, l, node) == (Some(m.edges[l.edges[i].0].from), Some(m.edges[l.edges[i].0].to)),
{
    let es = l.edges;
    let t = es.take(i);
    assert forall|j: int| 0 <= j < t.len() && m.edges.contains_key(#[trigger] t[j].0) implies !m.edges[t[j].0].nodes.contains(node) by {
        assert(t[j] == es[j]);
    }
    lemma_scan_one_sided(m, t, node);
    assert(es.take(i + 1).drop_last() =~= t);
    assert(es.take(i + 1).last() == es[i]);
    lemma_scan_settled(m, es, i + 1, node);
}

/// A line with a single station has that station before a node next to
/// it, and nothing around any other node.
pub proof fn lemma_edge_stations_single(m: MetroMapView, l: LineView, node: GridNode)
    requires
        l.stations.len() == 1,
        m.stations.contains_key(l.stations[0].0),
    ensures
        neighbors_of(m.stations[l.stations[0].0].pos).contains(node) ==> edge_stations(m, l, node) == (
            Some(m.stations[l.stations[0].0].id),
            None::<StationID>,
        ),
        !neighbors_of(m.stations[l.stations[0].0].pos).contains(node) ==> edge_stations(m, l, node) == (
            None::<StationID>,
            None::<StationID>,
        ),
{
}

/// The starts and ends of the edges stand in pairs: at `2 i` the start and
/// at `2 i + 1` the end of the edge at `i`.
pub proof fn lemma_edge_endpoints_pairs(m: MetroMapView, es: Seq<EdgeID>)
    ensures
        edge_endpoints(m, es).len() == 2 * es.len(),
        forall|i: int|
            0 <= i < es.len() ==> edge_endpoints(m, es)[2 * i] == m.edges[(#[trigger] es[i]).0].from
                && edge_endpoints(m, es)[2 * i + 1] == m.edges[es[i].0].to,
    decreases es.len(),
{
    if es.len() > 0 {
        let d = es.drop_last();
        lemma_edge_endpoints_pairs(m, d);
        assert forall|i: int| 0 <= i < es.len() implies edge_endpoints(m, es)[2 * i] == m.edges[(#[trigger] es[i]).0].from
            && edge_endpoints(m, es)[2 * i + 1] == m.edges[es[i].0].to by {
            if i < d.len() {
                assert(d[i] == es[i]);
            }
        }
    }
}

/// [`occurrences`] counts as the multiset of the sequence does.
pub proof fn lemma_occurrences_count(s: Seq<StationID>, x: StationID)
    ensures
        occurrences(s, x) == s.to_multiset().count(x),
    decreases s.len(),
{
    broadcast use vstd::seq_lib::group_to_multiset_ensures;

    if s.len() > 0 {
        lemma_occurrences_count(s.drop_last(), x);
        assert(s =~= s.drop_last().push(s.last()));
    } else {
        assert(s.to_multiset() =~= vstd::multiset::Multiset::<StationID>::empty());
    }
}

/// The elements of `p` kept by [`once_in`] are those that occur exactly once
/// in `full`.
proof fn lemma_once_in_members(p: Seq<StationID>, full: Seq<StationID>, x: StationID)
    ensures
        once_in(p, full).contains(x) <==> p.contains(x) && occurrences(full, x) == 1,
    decreases p.len(),
{
    if p.len() > 0 {
        let d = p.drop_last();
        lemma_once_in_members(d, full, x);
        lemma_push_contains(d, p.last(), x);
        assert(p =~= d.push(p.last()));
        lemma_push_contains(once_in(d, full), p.last(), x);
    }
}

/// The ends of a line with stations and edges are exactly the stations that
/// occur once among the starts and ends of its edges: a station that two
/// edges of the line share (or that no edge touches) is no end.
pub proof fn lemma_line_ends_occur_once(m: MetroMapView, l: LineView, x: StationID)
    requires
        l.stations.len() > 0,
        l.edges.len() > 0,
    ensures
        line_ends(m, l).contains(x) <==> edge_endpoints(m, l.edges).to_multiset().count(x) == 1,
{
    broadcast use vstd::seq_lib::group_to_multiset_ensures;

    let ep = edge_endpoints(m, l.edges);
    lemma_once_in_members(ep, ep, x);
    lemma_occurrences_count(ep, x);
}

/// A line passes every node of its edges, the places of their end
/// stations, and the nodes around each station at an end of the line.
pub proof fn lemma_line_visits_nodes(m: MetroMapView, l: LineView, node: GridNode)
    ensures
        forall|i: int|
            0 <= i < l.edges.len() && m.edges[(#[trigger] l.edges[i]).0].nodes.contains(node) ==> line_visits(m, l, node),
        forall|i: int|
            0 <= i < l.edges.len() && m.stations.contains_key(m.edges[(#[trigger] l.edges[i]).0].from.0)
                && m.stations[m.edges[l.edges[i].0].from.0].pos == node ==> line_visits(m, l, node),
        forall|i: int|
            0 <= i < l.edges.len() && m.stations.contains_key(m.edges[(#[trigger] l.edges[i]).0].to.0)
                && m.stations[m.edges[l.edges[i].0].to.0].pos == node ==> line_visits(m, l, node),
        forall|j: int|
            0 <= j < line_ends(m, l).len() && neighbors_of(m.stations[(#[trigger] line_ends(m, l)[j]).0].pos).contains(
                node,
            ) ==> line_visits(m, l, node),
{
    assert forall|i: int|
        0 <= i < l.edges.len() && m.edges[(#[trigger] l.edges[i]).0].nodes.contains(node) implies line_visits(m, l, node) by {
        assert(edge_visits(m, m.edges[l.edges[i].0], node));
    }
    assert forall|i: int|
        0 <= i < l.edges.len() && m.stations.contains_key(m.edges[(#[trigger] l.edges[i]).0].from.0)
            && m.stations[m.edges[l.edges[i].0].from.0].pos == node implies line_visits(m, l, node) by {
        assert(edge_visits(m, m.edges[l.edges[i].0], node));
    }
    assert forall|i: int|
        0 <= i < l.edges.len() && m.stations.contains_key(m.edges[(#[trigger] l.edges[i]).0].to.0)
            && m.stations[m.edges[l.edges[i].0].to.0].pos == node implies line_visits(m, l, node) by {
        assert(edge_visits(m, m.edges[l.edges[i].0], node));
    }
}

/// The ends of the edges of the map are stations of the map.
proof fn lemma_endpoints_attached(m: MetroMapView, es: Seq<EdgeID>, y: StationID)
    requires
        m.edges_attached(),
        forall|i: int| 0 <= i < es.len() ==> m.edges.contains_key(#[trigger] es[i].0),
    ensures
        edge_endpoints(m, es).contains(y) ==> m.stations.contains_key(y.0),
    decreases es.len(),
{
    if es.len() > 0 {
        let d = es.drop_last();
        assert forall|i: int| 0 <= i < d.len() implies m.edges.contains_key(#[trigger] d[i].0) by {
            assert(d[i] == es[i]);
        }
        lemma_endpoints_attached(m, d, y);
        let e = m.edges[es.last().0];
        assert(m.edges.contains_key(es.last().0));
        lemma_push_contains(edge_endpoints(m, d), e.from, y);
        lemma_push_contains(edge_endpoints(m, d).push(e.from), e.to, y);
    }
}

proof fn lemma_occurrences_contains(s: Seq<StationID>, x: StationID)
    ensures
        s.contains(x) <==> occurrences(s, x) >= 1,
    decreases s.len(),
{
    if s.len() > 0 {
        lemma_occurrences_contains(s.drop_last(), x);
        if s.drop_last().contains(x) {
            let i = choose|i: int| 0 <= i < s.drop_last().len() && s.drop_last()[i] == x;
            assert(s[i] == x);
        }
        if s.contains(x) && s.last() != x {
            let i = choose|i: int| 0 <= i < s.len() && s[i] == x;
            assert(s.drop_last()[i] == x);
        }
    }
}

proof fn lemma_occurrences_push(s: Seq<StationID>, x: StationID, y: StationID)
    ensures
        occurrences(s.push(x), y) == occurrences(s, y) + if x == y {
            1nat
        } else {
            0nat
        },
{
    assert(s.push(x).drop_last() =~= s);
}

/// What occurs exactly once in `full` among `q` is what `q` holds with that
/// count.
proof fn lemma_once_in_contains(q: Seq<StationID>, f: Seq<StationID>, y: StationID)
    ensures
        once_in(q, f).contains(y) <==> q.contains(y) && occurrences(f, y) == 1,
    decreases q.len(),
{
    if q.len() > 0 {
        let d = q.drop_last();
        lemma_once_in_contains(d, f, y);
        if occurrences(f, q.last()) == 1 {
            lemma_push_contains(once_in(d, f), q.last(), y);
        }
        lemma_push_contains(d, q.last(), y);
        assert(d.push(q.last()) =~= q);
    }
}

/// Counting in another sequence that agrees on every element but `x`
/// changes nothing where `x` keeps being, or not being, counted once.
proof fn lemma_once_in_same(q: Seq<StationID>, f: Seq<StationID>, g: Seq<StationID>, x: StationID)
    requires
        forall|y: StationID| y != x ==> occurrences(f, y) == occurrences(g, y),
        (occurrences(f, x) == 1) == (occurrences(g, x) == 1),
    ensures
        once_in(q, f) == once_in(q, g),
    decreases q.len(),
{
    if q.len() > 0 {
        lemma_once_in_same(q.drop_last(), f, g, x);
    }
}

/// Where `x` stops being counted once, it leaves the result.
proof fn lemma_once_in_drops(q: Seq<StationID>, f: Seq<StationID>, g: Seq<StationID>, x: StationID)
    requires
        forall|y: StationID| y != x ==> occurrences(f, y) == occurrences(g, y),
        occurrences(f, x) == 1,
        occurrences(g, x) != 1,
    ensures
        once_in(q, g) == seq_without(once_in(q, f), x),
    decreases q.len(),
{
    if q.len() > 0 {
        let d = q.drop_last();
        lemma_once_in_drops(d, f, g, x);
        let r = once_in(d, f);
        if occurrences(f, q.last()) == 1 {
            assert(r.push(q.last()).drop_last() =~= r);
        }
    }
}

/// Where `x`, not among `q`, starts being counted, nothing changes.
proof fn lemma_once_in_absent(q: Seq<StationID>, f: Seq<StationID>, g: Seq<StationID>, x: StationID)
    requires
        forall|y: StationID| y != x ==> occurrences(f, y) == occurrences(g, y),
        !q.contains(x),
    ensures
        once_in(q, f) == once_in(q, g),
    decreases q.len(),
{
    if q.len() > 0 {
        let d = q.drop_last();
        assert(!d.contains(x)) by {
            if d.contains(x) {
                let i = choose|i: int| 0 <= i < d.len() && d[i] == x;
                assert(q[i] == x);
            }
        }
        assert(q.last() != x) by {
            if q.last() == x {
                assert(q[q.len() - 1] == x);
            }
        }
        lemma_once_in_absent(d, f, g, x);
    }
}

/// One more element: the ends seen so far change as the executable scan
/// changes them.
proof fn lemma_once_in_step(p: Seq<StationID>, x: StationID)
    ensures
        occurrences(p, x) == 0 ==> once_in(p.push(x), p.push(x)) == once_in(p, p).push(x),
        occurrences(p, x) == 1 ==> once_in(p.push(x), p.push(x)) == seq_without(once_in(p, p), x),
        occurrences(p, x) >= 2 ==> once_in(p.push(x), p.push(x)) == once_in(p, p),
{
    let q = p.push(x);
    assert(q.drop_last() =~= p);
    assert(q.last() == x);
    assert forall|y: StationID| y != x implies occurrences(p, y) == occurrences(q, y) by {
        lemma_occurrences_push(p, x, y);
    }
    lemma_occurrences_push(p, x, x);
    if occurrences(p, x) == 0 {
        lemma_occurrences_contains(p, x);
        lemma_once_in_absent(p, p, q, x);
    } else if occurrences(p, x) == 1 {
        lemma_once_in_drops(p, p, q, x);
    } else {
        lemma_once_in_same(p, p, q, x);
    }
}

/// A copy of `v` without any `x`.
fn stations_without(v: &Vec<StationID>, x: StationID) -> (r: Vec<StationID>)
    ensures
        r@ == seq_without(v@, x),
{
    let mut out: Vec<StationID> = Vec::new();
    let mut i: usize = 0;
    while i < v.len()
        invariant
            i <= v@.len(),
            out@ == seq_without(v@.take(i as int), x),
        decreases v@.len() - i,
    {
        assert(v@.take(i + 1).drop_last() =~= v@.take(i as int));
        if v[i] != x {
            out.push(v[i]);
        }
        i = i + 1;
    }
    assert(v@.take(v@.len() as int) =~= v@);
    out
}

/// If `x` occurs in `v`.
fn holds_station(v: &Vec<StationID>, x: StationID) -> (r: bool)
    ensures
        r == v@.contains(x),
{
    let mut i: usize = 0;
    while i < v.len()
        invariant
            i <= v@.len(),
            forall|j: int| 0 <= j < i ==> v@[j] != x,
        decreases v@.len() - i,
    {
        if v[i] == x {
            return true;
        }
        i = i + 1;
    }
    false
}

/// The running state of the search for the line's ends: `ends` holds the
/// stations seen exactly once so far, `middles` those seen more often.
fn see_station(ends: &mut Vec<StationID>, middles: &mut Vec<StationID>, x: StationID, Ghost(p): Ghost<Seq<StationID>>)
    requires
        old(ends)@ == once_in(p, p),
        forall|y: StationID| old(middles)@.contains(y) <==> occurrences(p, y) >= 2,
    ensures
        final(ends)@ == once_in(p.push(x), p.push(x)),
        forall|y: StationID| final(middles)@.contains(y) <==> occurrences(p.push(x), y) >= 2,
{
    proof {
        lemma_once_in_step(p, x);
        lemma_once_in_contains(p, p, x);
        lemma_occurrences_contains(p, x);
        assert forall|y: StationID| occurrences(p.push(x), y) == occurrences(p, y) + if x == y { 1nat } else { 0nat } by {
            lemma_occurrences_push(p, x, y);
        }
    }
    if holds_station(middles, x) {
        return;
    }
    if holds_station(ends, x) {
        let kept = stations_without(ends, x);
        *ends = kept;
        let ghost before = middles@;
        middles.push(x);
        proof {
            assert forall|y: StationID| middles@.contains(y) <==> occurrences(p.push(x), y) >= 2 by {
                lemma_push_contains(before, x, y);
            }
        }
    } else {
        ends.push(x);
    }
}

impl Line {
    /// The stations next to the given station on the line: those before it
    /// (the start of each edge of the line that ends at it) and those after
    /// it (the end of each edge of the line that starts at it), each in the
    /// order of the line's edges.
    pub fn get_station_neighbors(&self, map: &MetroMap, station: StationID) -> (r: (
        Vec<StationID>,
        Vec<StationID>,
    ))
        requires
            line_edges_in(map@, self@),
        ensures
            r.0@ == stations_before(map@, self@.edges, station),
            r.1@ == stations_after(map@, self@.edges, station),
    {
        let edges = self.get_edges();
        let mut before: Vec<StationID> = Vec::new();
        let mut after: Vec<StationID> = Vec::new();
        let mut i: usize = 0;
        while i < edges.len()
            invariant
                i <= edges@.len(),
                edges@ == self@.edges,
                line_edges_in(map@, self@),
                before@ == stations_before(map@, edges@.take(i as int), station),
                after@ == stations_after(map@, edges@.take(i as int), station),
            decreases edges@.len() - i,
        {
            assert(edges@.take(i + 1).drop_last() =~= edges@.take(i as int));
            assert(map@.edges.contains_key(edges@[i as int].0));
            let edge = map.get_edge(edges[i]).unwrap();
            if edge.get_from() == station {
                after.push(edge.get_to());
            } else if edge.get_to() == station {
                before.push(edge.get_from());
            }
            i = i + 1;
        }
        assert(edges@.take(edges@.len() as int) =~= edges@);
        (before, after)
    }

    /// The start and end stations of the line: its stations if it has no
    /// stations or no edges; else each station that is an end of exactly one
    /// of its edges (counting an edge that starts and ends at it twice), in
    /// the order of the edges.
    pub fn get_line_ends(&self, map: &MetroMap) -> (r: Vec<StationID>)
        requires
            line_edges_in(map@, self@),
        ensures
            r@ == line_ends(map@, self@),
    {
        let stations = self.get_stations();
        let edges = self.get_edges();
        if stations.len() == 0 || edges.len() == 0 {
            return crate::models::util::copy_slice(stations);
        }
        let mut ends: Vec<StationID> = Vec::new();
        let mut middles: Vec<StationID> = Vec::new();
        let mut i: usize = 0;
        while i < edges.len()
            invariant
                i <= edges@.len(),
                edges@ == self@.edges,
                line_edges_in(map@, self@),
                ends@ == once_in(
                    edge_endpoints(map@, edges@.take(i as int)),
                    edge_endpoints(map@, edges@.take(i as int)),
                ),
                forall|y: StationID|
                    middles@.contains(y) <==> occurrences(edge_endpoints(map@, edges@.take(i as int)), y)
                        >= 2,
            decreases edges@.len() - i,
        {
            let ghost p = edge_endpoints(map@, edges@.take(i as int));
            assert(edges@.take(i + 1).drop_last() =~= edges@.take(i as int));
            assert(map@.edges.contains_key(edges@[i as int].0));
            let edge = map.get_edge(edges[i]).unwrap();
            let from = edge.get_from();
            let to = edge.get_to();
            see_station(&mut ends, &mut middles, from, Ghost(p));
            see_station(&mut ends, &mut middles, to, Ghost(p.push(from)));
            i = i + 1;
        }
        assert(edges@.take(edges@.len() as int) =~= edges@);
        ends
    }
}

impl Line {
    /// Returns if the line passes the node: one of its edges goes through it,
    /// or it is next to a station at an end of the line.
    pub fn visits_node(&self, map: &MetroMap, node: GridNode) -> (r: bool)
        requires
            line_edges_in(map@, self@),
            map@.edges_attached(),
            stations_inside_grid(map@),
            forall|i: int| 0 <= i < self@.stations.len() ==> map@.stations.contains_key(#[trigger] self@.stations[i].0),
        ensures
            r == line_visits(map@, self@, node),
    {
        let edges = self.get_edges();
        let mut i: usize = 0;
        while i < edges.len()
            invariant
                i <= edges@.len(),
                edges@ == self@.edges,
                line_edges_in(map@, self@),
                forall|j: int| 0 <= j < i ==> !#[trigger] edge_visits(map@, map@.edges[edges@[j].0], node),
            decreases edges@.len() - i,
        {
            assert(map@.edges.contains_key(edges@[i as int].0));
            let edge = map.get_edge(edges[i]).unwrap();
            if edge.visits_node(map, node) {
                return true;
            }
            i = i + 1;
        }
        let ends = self.get_line_ends(map);
        proof {
            assert forall|y: StationID| ends@.contains(y) implies #[trigger] map@.stations.contains_key(y.0) by {
                if self@.stations.len() == 0 || self@.edges.len() == 0 {
                    let q = choose|q: int| 0 <= q < ends@.len() && ends@[q] == y;
                    assert(self@.stations[q] == y);
                } else {
                    let pts = edge_endpoints(map@, self@.edges);
                    lemma_once_in_contains(pts, pts, y);
                    lemma_endpoints_attached(map@, self@.edges, y);
                }
            }
        }
        let mut j: usize = 0;
        while j < ends.len()
            invariant
                j <= ends@.len(),
                ends@ == line_ends(map@, self@),
                stations_inside_grid(map@),
                forall|y: StationID| ends@.contains(y) ==> #[trigger] map@.stations.contains_key(y.0),
                forall|q: int| 0 <= q < j ==> !neighbors_of(map@.stations[#[trigger] ends@[q].0].pos).contains(node),
            decreases ends@.len() - j,
        {
            assert(ends@.contains(ends@[j as int]));
            let station = map.get_station(ends[j]).unwrap();
            if station.is_neighbor(node) {
                return true;
            }
            j = j + 1;
        }
        false
    }

    /// Gets the stations on either side of the node on this line (see
    /// [`edge_stations`]).
    pub fn get_edge_stations(&self, map: &MetroMap, node: GridNode) -> (r: (
        Option<StationID>,
        Option<StationID>,
    ))
        requires
            stations_inside_grid(map@),
        ensures
            r == edge_stations(map@, self@, node),
    {
        let stations = self.get_stations();
        let edges = self.get_edges();
        if stations.len() == 1 {
            match map.get_station(stations[0]) {
                Some(station) => {
                    if station.is_neighbor(node) {
                        return (Some(station.get_id()), None);
                    }
                },
                None => {},
            }
            return (None, None);
        }
        if stations.len() == 0 || edges.len() == 0 {
            return (None, None);
        }
        let mut from: Option<StationID> = None;
        let mut to: Option<StationID> = None;
        let mut i: usize = 0;
        while i < edges.len()
            invariant
                i <= edges@.len(),
                edges@ == self@.edges,
                self@.stations.len() >= 2,
                stations_inside_grid(map@),
                !edge_stations_scan(map@, edges@.take(i as int), node).0,
                edge_stations_scan(map@, edges@.take(i as int), node).1 == (from, to),
            decreases edges@.len() - i,
        {
            assert(edges@.take(i + 1).drop_last() =~= edges@.take(i as int));
            match map.get_edge(edges[i]) {
                Some(edge) => {
                    match edge.get_neigboring_stations(map, node) {
                        Some(res) => {
                            if res.0.is_some() && res.1.is_some() {
                                proof {
                                    let t = edges@.take(i + 1);
                                    assert(t.last() == edges@[i as int]);
                                    assert(edge_stations_scan(map@, t, node) == (true, res));
                                    lemma_scan_settled(map@, edges@, i + 1, node);
                                }
                                return res;
                            }
                            if res.0.is_some() || res.1.is_some() {
                                from = res.0;
                                to = res.1;
                            }
                        },
                        None => {},
                    }
                },
                None => {},
            }
            i = i + 1;
        }
        assert(edges@.take(edges@.len() as int) =~= edges@);
        (from, to)
    }
}

/// Every station that a line of the map visits is a station of the map.
pub open spec fn line_stations_listed(m: MetroMapView) -> bool {
    forall|k: u64, i: int|
        #![trigger m.lines[k].stations[i]]
        m.lines.contains_key(k) && 0 <= i < m.lines[k].stations.len() ==> m.stations.contains_key(
            m.lines[k].stations[i].0,
        )
}

impl MetroMap {
    /// The line of the map that passes the node (see [`line_visits`]), if
    /// any; where several do, one of them.
    pub fn line_at_node(&self, node: GridNode) -> (r: Option<&Line>)
        requires
            self@.wf(),
            self@.lines_valid(),
            self@.edges_attached(),
            stations_inside_grid(self@),
            line_stations_listed(self@),
        ensures
            match r {
                Some(l) => {
                    &&& self@.lines.contains_key(l@.id.0)
                    &&& self@.lines[l@.id.0] == l@
                    &&& line_visits(self@, l@, node)
                },
                None => forall|k: u64| #[trigger] self@.lines.contains_key(k) ==> !line_visits(self@, self@.lines[k], node),
            },
    {
        let keys = self.line_ids();
        let mut i: usize = 0;
        while i < keys.len()
            invariant
                i <= keys@.len(),
                self@.wf(),
                self@.lines_valid(),
                self@.edges_attached(),
                stations_inside_grid(self@),
                line_stations_listed(self@),
                forall|q: int| 0 <= q < keys@.len() ==> self@.lines.contains_key(#[trigger] keys@[q].0),
                forall|q: int| 0 <= q < i ==> !line_visits(self@, self@.lines[#[trigger] keys@[q].0], node),
            decreases keys@.len() - i,
        {
            assert(self@.lines.contains_key(keys@[i as int].0));
            let line = self.get_line(keys[i]).unwrap();
            let ghost k = keys@[i as int].0;
            proof {
                assert forall|t: int| 0 <= t < line@.edges.len() implies self@.edges.contains_key(#[trigger] line@.edges[t].0) by {
                    assert(self@.lines[k].edges[t] == line@.edges[t]);
                }
                assert forall|t: int| 0 <= t < line@.stations.len() implies self@.stations.contains_key(#[trigger] line@.stations[t].0) by {
                    assert(self@.lines[k].stations[t] == line@.stations[t]);
                }
            }
            if line.visits_node(self, node) {
                assert(self@.lines[k].id.0 == k);
                return Some(line);
            }
            i = i + 1;
        }
        proof {
            assert forall|k: u64| #[trigger] self@.lines.contains_key(k) implies !line_visits(self@, self@.lines[k], node) by {
                assert(keys@.contains(LineID(k)));
                let q = choose|q: int| 0 <= q < keys@.len() && keys@[q] == LineID(k);
                assert(!line_visits(self@, self@.lines[keys@[q].0], node));
            }
        }
        None
    }
}

} // verus!
