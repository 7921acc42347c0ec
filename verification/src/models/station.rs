//! Contains the [`Station`] struct and its methods.
use vstd::prelude::*;

use super::grid_node::{
    has_all_neighbors,
    neighbors_of,
    GridNode,
};
use super::util::copy_vec;
use super::ids::{
    counter_after_update,
    successor,
    EdgeID,
    IDManager,
    StationID,
};

verus! {

/// What a [`Station`] holds.
pub struct StationView {
    pub pos: GridNode,
    pub original_pos: GridNode,
    pub id: StationID,
    pub is_ghost: bool,
    pub name: Seq<char>,
    pub edges: Seq<EdgeID>,
    pub is_locked: bool,
    pub is_settled: bool,
}

/// Represents a metro station, including its grid position on the map, its
/// id, name and if the station should be greyed out when drawn.
#[derive(Debug)]
pub struct Station {
    /// Position of the station.
    pos: GridNode,
    /// The position of the station when it first was created.
    original_pos: GridNode,
    /// ID of the station.
    id: StationID,
    /// If when drawn the station should be greyed out (like when moving).
    is_ghost: bool,
    /// The station name.
    name: String,
    /// The edges that are connected to this station.
    edges: Vec<EdgeID>,
    /// Marks the location of the station as locked by the user.
    is_locked: bool,
    /// Marks the location of the station as settled in the algorithm.
    is_settled: bool,
}

impl View for Station {
    type V = StationView;

    closed spec fn view(&self) -> StationView {
        StationView {
            pos: self.pos,
            original_pos: self.original_pos,
            id: self.id,
            is_ghost: self.is_ghost,
            name: self.name@,
            edges: self.edges@,
            is_locked: self.is_locked,
            is_settled: self.is_settled,
        }
    }
}

/// `s` with every occurrence of `x` removed, the rest kept in order.
pub open spec fn seq_without<A>(s: Seq<A>, x: A) -> Seq<A>
    decreases s.len(),
{
    if s.len() == 0 {
        s
    } else if s.last() == x {
        seq_without(s.drop_last(), x)
    } else {
        seq_without(s.drop_last(), x).push(s.last())
    }
}

impl Station {
    /// Create a new [`Station`] at the given grid coordinate. If `id` is
    /// `None`, the next sequential id is taken from `ids`; if it is given,
    /// `ids` is told that it is taken.
    pub fn new(pos: GridNode, id: Option<StationID>, ids: &mut IDManager) -> (r: Self)
        ensures
            r@.pos == pos,
            r@.original_pos == pos,
            r@.is_ghost == false,
            r@.name == Seq::<char>::empty(),
            r@.edges == Seq::<EdgeID>::empty(),
            r@.is_locked == false,
            r@.is_settled == false,
            match id {
                Some(given) => {
                    &&& r@.id == given
                    &&& final(ids).station_counter() == counter_after_update(
                        old(ids).station_counter(),
                        given.0,
                    )
                },
                None => {
                    &&& r@.id.0 == old(ids).station_counter()
                    &&& final(ids).station_counter() == successor(old(ids).station_counter())
                },
            },
            final(ids).edge_counter() == old(ids).edge_counter(),
            final(ids).line_counter() == old(ids).line_counter(),
    {
        let new_id = match id {
            Some(given) => {
                ids.update_station_id(given);
                given
            },
            None => ids.next_station_id(),
        };
        Station {
            pos,
            original_pos: pos,
            id: new_id,
            is_ghost: false,
            name: String::new(),
            edges: Vec::new(),
            is_locked: false,
            is_settled: false,
        }
    }

    /// A getter for the id.
    pub fn get_id(&self) -> (r: StationID)
        ensures
            r == self@.id,
    {
        self.id
    }

    /// A getter for the grid position.
    pub fn get_pos(&self) -> (r: GridNode)
        ensures
            r == self@.pos,
    {
        self.pos
    }

    /// A setter for if the station should be greyed out.
    pub fn set_is_ghost(&mut self, ghost: bool)
        ensures
            final(self)@ == (StationView { is_ghost: ghost, ..old(self)@ }),
    {
        self.is_ghost = ghost;
    }

    /// A setter for the grid position of the station.
    pub fn set_pos(&mut self, pos: GridNode)
        ensures
            final(self)@ == (StationView { pos: pos, ..old(self)@ }),
    {
        self.pos = pos;
    }

    /// A getter for the original grid position.
    pub fn get_original_pos(&self) -> (r: GridNode)
        ensures
            r == self@.original_pos,
    {
        self.original_pos
    }

    /// A setter for the original grid position, used when the station is
    /// moved manually.
    pub fn set_original_pos(&mut self, pos: GridNode)
        ensures
            final(self)@ == (StationView { original_pos: pos, ..old(self)@ }),
    {
        self.original_pos = pos;
    }

    /// A setter for the name.
    pub fn set_name(&mut self, name: &str)
        ensures
            final(self)@ == (StationView { name: name@, ..old(self)@ }),
    {
        self.name = name.to_owned();
    }

    /// A getter for the name.
    pub fn get_name(&self) -> (r: &str)
        ensures
            r@ == self@.name,
    {
        self.name.as_str()
    }

    /// Lock the position of the station.
    pub fn lock(&mut self)
        ensures
            final(self)@ == (StationView { is_locked: true, ..old(self)@ }),
    {
        self.is_locked = true;
    }

    /// Unlock the position of the station.
    pub fn unlock(&mut self)
        ensures
            final(self)@ == (StationView { is_locked: false, ..old(self)@ }),
    {
        self.is_locked = false;
    }

    /// Settle the station onto the given grid node.
    pub fn settle(&mut self, pos: GridNode)
        ensures
            final(self)@ == (StationView { pos: pos, is_settled: true, ..old(self)@ }),
    {
        self.pos = pos;
        self.is_settled = true;
    }

    /// Unsettle the station.
    pub fn unsettle(&mut self)
        ensures
            final(self)@ == (StationView { is_settled: false, ..old(self)@ }),
    {
        self.is_settled = false;
    }

    /// Check if the station is settled; a locked station counts as settled.
    pub fn is_settled(&self) -> (r: bool)
        ensures
            r == (self@.is_settled || self@.is_locked),
    {
        self.is_settled || self.is_locked
    }

    /// Check if the station is locked.
    pub fn is_locked(&self) -> (r: bool)
        ensures
            r == self@.is_locked,
    {
        self.is_locked
    }

    /// If the given node is one of the eight grid nodes around the station.
    pub fn is_neighbor(&self, node: GridNode) -> (r: bool)
        requires
            has_all_neighbors(self@.pos),
        ensures
            r == neighbors_of(self@.pos).contains(node),
    {
        let neighbors = self.pos.get_neighbors();
        let mut i: usize = 0;
        while i < neighbors.len()
            invariant
                i <= neighbors@.len(),
                neighbors@ == neighbors_of(self@.pos),
                forall|j: int| 0 <= j < i ==> neighbors@[j] != node,
            decreases neighbors@.len() - i,
        {
            if neighbors[i] == node {
                return true;
            }
            i = i + 1;
        }
        false
    }

    /// Add an edge to the station, unless it is already there.
    pub fn add_edge(&mut self, edge: EdgeID)
        ensures
            final(self)@ == (StationView {
                edges: if old(self)@.edges.contains(edge) {
                    old(self)@.edges
                } else {
                    old(self)@.edges.push(edge)
                },
                ..old(self)@
            }),
    {
        let mut i: usize = 0;
        while i < self.edges.len()
            invariant
                i <= self.edges@.len(),
                self@ == old(self)@,
                forall|j: int| 0 <= j < i ==> self.edges@[j] != edge,
            decreases self.edges@.len() - i,
        {
            if self.edges[i] == edge {
                return;
            }
            i = i + 1;
        }
        self.edges.push(edge);
    }

    /// Remove every occurrence of an edge from the station.
    pub fn remove_edge(&mut self, edge: EdgeID)
        ensures
            final(self)@ == (StationView { edges: seq_without(old(self)@.edges, edge), ..old(self)@ }),
    {
        let mut kept: Vec<EdgeID> = Vec::new();
        let mut i: usize = 0;
        assert(self.edges@.take(0) =~= Seq::<EdgeID>::empty());
        while i < self.edges.len()
            invariant
                i <= self.edges@.len(),
                self@ == old(self)@,
                kept@ == seq_without(self.edges@.take(i as int), edge),
            decreases self.edges@.len() - i,
        {
            let e = self.edges[i];
            proof {
                assert(self.edges@.take(i + 1).drop_last() =~= self.edges@.take(i as int));
            }
            if e != edge {
                kept.push(e);
            }
            i = i + 1;
        }
        assert(self.edges@.take(self.edges@.len() as int) =~= self.edges@);
        self.edges = kept;
    }

    /// Get the edges connected to the station.
    pub fn get_edges(&self) -> (r: &[EdgeID])
        ensures
            r@ == self@.edges,
    {
        self.edges.as_slice()
    }

    /// Clear all edges from the station.
    pub fn clear_edges(&mut self)
        ensures
            final(self)@ == (StationView { edges: Seq::<EdgeID>::empty(), ..old(self)@ }),
    {
        self.edges = Vec::new();
    }
}

impl Clone for Station {
    fn clone(&self) -> (r: Self)
        ensures
            r@ == self@,
    {
        Station {
            pos: self.pos,
            original_pos: self.original_pos,
            id: self.id,
            is_ghost: self.is_ghost,
            name: self.name.clone(),
            edges: copy_vec(&self.edges),
            is_locked: self.is_locked,
            is_settled: self.is_settled,
        }
    }
}

impl PartialEq for Station {
    fn eq(&self, other: &Station) -> (r: bool) {
        self.id == other.id
    }
}

impl vstd::std_specs::cmp::PartialEqSpecImpl for Station {
    open spec fn obeys_eq_spec() -> bool {
        true
    }

    open spec fn eq_spec(&self, other: &Station) -> bool {
        self@.id == other@.id
    }
}

/// Adding an edge twice has the same effect as adding it once.
pub proof fn lemma_add_edge_idempotent(edges: Seq<EdgeID>, e: EdgeID)
    ensures
        ({
            let once = if edges.contains(e) { edges } else { edges.push(e) };
            let twice = if once.contains(e) { once } else { once.push(e) };
            twice == once
        }),
{
    if !edges.contains(e) {
        assert(edges.push(e)[edges.len() as int] == e);
    }
}

/// After an edge is removed from a station, the station no longer lists it,
/// and every other edge it listed stays.
pub proof fn lemma_remove_edge_removes(edges: Seq<EdgeID>, e: EdgeID)
    ensures
        !seq_without(edges, e).contains(e),
        forall|f: EdgeID| f != e ==> (edges.contains(f) <==> seq_without(edges, e).contains(f)),
    decreases edges.len(),
{
    if edges.len() > 0 {
        let rest = edges.drop_last();
        lemma_remove_edge_removes(rest, e);
        let rw = seq_without(rest, e);
        let w = seq_without(edges, e);
        let l = edges.last();
        assert forall|f: EdgeID| f != e implies (edges.contains(f) <==> w.contains(f)) by {
            assert(edges.contains(f) <==> (rest.contains(f) || f == l)) by {
                if edges.contains(f) {
                    let i = choose|i: int| 0 <= i < edges.len() && #[trigger] edges[i] == f;
                    if i < rest.len() {
                        assert(rest[i] == f);
                    }
                }
                if rest.contains(f) {
                    let i = choose|i: int| 0 <= i < rest.len() && #[trigger] rest[i] == f;
                    assert(edges[i] == f);
                }
                if f == l {
                    assert(edges[edges.len() - 1] == f);
                }
            }
            if l != e {
                assert(w == rw.push(l));
                assert(rw.push(l).contains(f) <==> (rw.contains(f) || f == l)) by {
                    if rw.push(l).contains(f) {
                        let i = choose|i: int| 0 <= i < rw.len() + 1 && #[trigger] rw.push(l)[i] == f;
                        if i < rw.len() {
                            assert(rw[i] == f);
                        }
                    }
                    if rw.contains(f) {
                        let i = choose|i: int| 0 <= i < rw.len() && #[trigger] rw[i] == f;
                        assert(rw.push(l)[i] == f);
                    }
                    if f == l {
                        assert(rw.push(l)[rw.len() as int] == f);
                    }
                }
            }
        }
        assert(!w.contains(e)) by {
            if l != e {
                if w.contains(e) {
                    let i = choose|i: int| 0 <= i < w.len() && #[trigger] w[i] == e;
                    assert(w == rw.push(l));
                    if i < rw.len() {
                        assert(rw[i] == e);
                    }
                }
            }
        }
    }
}

} // verus!
