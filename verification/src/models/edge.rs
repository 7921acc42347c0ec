//! Contains the [`Edge`] struct and its methods.
use vstd::prelude::*;

use super::grid_node::GridNode;
use super::util::copy_vec;
use super::ids::{
    successor,
    EdgeID,
    IDManager,
    LineID,
    StationID,
};

verus! {

/// If the line identifiers are in ascending order.
pub open spec fn sorted_ids(s: Seq<LineID>) -> bool {
    forall|i: int, j: int| 0 <= i < j < s.len() ==> s[i].0 <= s[j].0
}

/// If the line identifiers are in strictly ascending order (so none occurs
/// twice).
pub open spec fn strictly_sorted_ids(s: Seq<LineID>) -> bool {
    forall|i: int, j: int| 0 <= i < j < s.len() ==> s[i].0 < s[j].0
}

/// The lines of an edge after `line` has been added to them.
pub open spec fn lines_with(s: Seq<LineID>, line: LineID) -> Seq<LineID> {
    if s.contains(line) {
        s
    } else {
        s.insert(insertion_point(s, line.0), line)
    }
}

/// The lines of an edge after `line` has been removed from them.
pub open spec fn lines_without(s: Seq<LineID>, line: LineID) -> Seq<LineID> {
    if s.contains(line) {
        s.remove(insertion_point(s, line.0))
    } else {
        s
    }
}

/// If `pos` splits `s` into the ids below `v` and the ids at or above it.
pub open spec fn splits_at(s: Seq<LineID>, v: u64, pos: int) -> bool {
    &&& 0 <= pos <= s.len()
    &&& forall|i: int| 0 <= i < pos ==> s[i].0 < v
    &&& forall|i: int| pos <= i < s.len() ==> s[i].0 >= v
}

/// The position in the sorted list `s` before which the id `v` belongs.
pub open spec fn insertion_point(s: Seq<LineID>, v: u64) -> int {
    choose|pos: int| splits_at(s, v, pos)
}

proof fn lemma_split_point_exists(s: Seq<LineID>, v: u64) -> (p: int)
    requires
        sorted_ids(s),
    ensures
        splits_at(s, v, p),
    decreases s.len(),
{
    if s.len() == 0 {
        0
    } else {
        let rest = s.drop_last();
        assert(sorted_ids(rest)) by {
            assert forall|i: int, j: int| 0 <= i < j < rest.len() implies rest[i].0 <= rest[j].0 by {
                assert(rest[i] == s[i] && rest[j] == s[j]);
            }
        }
        let q = lemma_split_point_exists(rest, v);
        if q == rest.len() && s.last().0 < v {
            assert forall|i: int| 0 <= i < s.len() implies s[i].0 < v by {
                if i < rest.len() {
                    assert(rest[i] == s[i]);
                }
            }
            s.len() as int
        } else {
            assert forall|i: int| 0 <= i < q implies s[i].0 < v by {
                assert(rest[i] == s[i]);
            }
            assert forall|i: int| q <= i < s.len() implies s[i].0 >= v by {
                if i < rest.len() {
                    assert(rest[i] == s[i]);
                } else if q < rest.len() {
                    assert(rest[q] == s[q]);
                    assert(s[q].0 <= s[i].0);
                }
            }
            q
        }
    }
}

/// A position that splits a sorted list of ids at `v` exists.
pub proof fn lemma_split_point_exists_pub(s: Seq<LineID>, v: u64) -> (p: int)
    requires
        sorted_ids(s),
    ensures
        splits_at(s, v, p),
{
    lemma_split_point_exists(s, v)
}

/// The insertion point is the position that splits the list.
pub proof fn lemma_insertion_point_pub(s: Seq<LineID>, v: u64, pos: int)
    requires
        splits_at(s, v, pos),
    ensures
        insertion_point(s, v) == pos,
{
    lemma_insertion_point(s, v, pos)
}

proof fn lemma_insertion_point(s: Seq<LineID>, v: u64, pos: int)
    requires
        splits_at(s, v, pos),
    ensures
        insertion_point(s, v) == pos,
{
    let p = insertion_point(s, v);
    assert(splits_at(s, v, p));
    if p < pos {
        assert(s[p].0 < v);
    } else if p > pos {
        assert(s[pos].0 < v);
    }
}

/// What an [`Edge`] holds.
pub struct EdgeView {
    pub id: EdgeID,
    pub from: StationID,
    pub to: StationID,
    pub nodes: Seq<GridNode>,
    pub lines: Seq<LineID>,
    pub is_settled: bool,
    pub is_locked: bool,
    pub is_selected: bool,
    pub contracted_stations: Seq<StationID>,
}

/// Represents an edge, which is the connection between two stations. The
/// lines that use the edge are kept in ascending order of their ids: every
/// operation that changes them keeps that order.
#[derive(Debug)]
pub struct Edge {
    /// ID of the edge.
    id: EdgeID,
    /// Start of the edge.
    from: StationID,
    /// End of the edge.
    to: StationID,
    /// Nodes visited between the stations.
    nodes: Vec<GridNode>,
    /// Lines that use this edge, in ascending order.
    lines: Vec<LineID>,
    /// If the edge is settled in the algorithm.
    is_settled: bool,
    /// If the edge is locked into its current shape by the user.
    is_locked: bool,
    /// If the edge is selected by the user.
    is_selected: bool,
    /// The stations contracted into this edge.
    contracted_stations: Vec<StationID>,
}

impl View for Edge {
    type V = EdgeView;

    closed spec fn view(&self) -> EdgeView {
        EdgeView {
            id: self.id,
            from: self.from,
            to: self.to,
            nodes: self.nodes@,
            lines: self.lines@,
            is_settled: self.is_settled,
            is_locked: self.is_locked,
            is_selected: self.is_selected,
            contracted_stations: self.contracted_stations@,
        }
    }
}

/// The position in a sorted list of line ids before which `line` belongs:
/// everything before it is smaller, everything from it on is at least as
/// large.
fn lower_bound(lines: &Vec<LineID>, line: LineID) -> (r: usize)
    requires
        sorted_ids(lines@),
    ensures
        r <= lines@.len(),
        forall|i: int| 0 <= i < r ==> lines@[i].0 < line.0,
        forall|i: int| r <= i < lines@.len() ==> lines@[i].0 >= line.0,
{
    let mut lo: usize = 0;
    let mut hi: usize = lines.len();
    while lo < hi
        invariant
            lo <= hi <= lines@.len(),
            sorted_ids(lines@),
            forall|i: int| 0 <= i < lo ==> lines@[i].0 < line.0,
            forall|i: int| hi <= i < lines@.len() ==> lines@[i].0 >= line.0,
        decreases hi - lo,
    {
        let mid = lo + (hi - lo) / 2;
        if lines[mid].0 < line.0 {
            lo = mid + 1;
        } else {
            hi = mid;
        }
    }
    lo
}

proof fn lemma_insert_multiset(s: Seq<LineID>, pos: int, x: LineID)
    requires
        0 <= pos <= s.len(),
    ensures
        s.insert(pos, x).to_multiset() == s.to_multiset().insert(x),
{
    broadcast use vstd::seq_lib::group_to_multiset_ensures;
    broadcast use vstd::multiset::group_multiset_axioms;
    let t = s.insert(pos, x);
    assert(t.remove(pos) =~= s);
    assert(t.remove(pos).to_multiset() == t.to_multiset().remove(t[pos]));
    assert(t.to_multiset().count(x) > 0);
    assert(t.to_multiset() =~= s.to_multiset().insert(x));
}

impl Edge {
    /// Creates a new edge between two stations. If `id` is `None` the next
    /// edge id is taken from `ids`.
    pub fn new(from: StationID, to: StationID, id: Option<EdgeID>, ids: &mut IDManager) -> (r: Self)
        ensures
            r@.from == from,
            r@.to == to,
            r@.nodes == Seq::<GridNode>::empty(),
            r@.lines == Seq::<LineID>::empty(),
            !r@.is_settled,
            !r@.is_locked,
            !r@.is_selected,
            r@.contracted_stations == Seq::<StationID>::empty(),
            match id {
                Some(given) => r@.id == given && *final(ids) == *old(ids),
                None => {
                    &&& r@.id.0 == old(ids).edge_counter()
                    &&& final(ids).edge_counter() == successor(old(ids).edge_counter())
                    &&& final(ids).station_counter() == old(ids).station_counter()
                    &&& final(ids).line_counter() == old(ids).line_counter()
                },
            },
    {
        let new_id = match id {
            Some(given) => given,
            None => ids.next_edge_id(),
        };
        Edge {
            id: new_id,
            from,
            to,
            nodes: Vec::new(),
            lines: Vec::new(),
            is_settled: false,
            is_locked: false,
            is_selected: false,
            contracted_stations: Vec::new(),
        }
    }

    /// Returns the id of the edge.
    pub fn get_id(&self) -> (r: EdgeID)
        ensures
            r == self@.id,
    {
        self.id
    }

    /// Returns true if the given station id is the edge start.
    pub fn is_from(&self, id: StationID) -> (r: bool)
        ensures
            r == (self@.from == id),
    {
        self.from == id
    }

    /// Returns true if the given station id is the edge goal.
    pub fn is_to(&self, id: StationID) -> (r: bool)
        ensures
            r == (self@.to == id),
    {
        self.to == id
    }

    /// Get the id of the edge start.
    pub fn get_from(&self) -> (r: StationID)
        ensures
            r == self@.from,
    {
        self.from
    }

    /// Get the id of the edge goal.
    pub fn get_to(&self) -> (r: StationID)
        ensures
            r == self@.to,
    {
        self.to
    }

    /// Get the other end of the edge from the station given, or `None` if the
    /// station is not an end of the edge.
    pub fn opposite(&self, station: StationID) -> (r: Option<StationID>)
        ensures
            r == (if self@.from == station {
                Some(self@.to)
            } else if self@.to == station {
                Some(self@.from)
            } else {
                None
            }),
    {
        if self.from == station {
            Some(self.to)
        } else if self.to == station {
            Some(self.from)
        } else {
            None
        }
    }

    /// A setter for the lines that use this edge; they are stored in
    /// ascending order.
    pub fn set_lines(&mut self, lines: Vec<LineID>)
        ensures
            sorted_ids(final(self)@.lines),
            final(self)@.lines.to_multiset() == lines@.to_multiset(),
            lines@.no_duplicates() ==> strictly_sorted_ids(final(self)@.lines),
            final(self)@ == (EdgeView { lines: final(self)@.lines, ..old(self)@ }),
    {
        let mut sorted: Vec<LineID> = Vec::new();
        let mut i: usize = 0;
        assert(lines@.take(0) =~= Seq::<LineID>::empty());
        while i < lines.len()
            invariant
                i <= lines@.len(),
                sorted_ids(sorted@),
                sorted@.to_multiset() == lines@.take(i as int).to_multiset(),
            decreases lines@.len() - i,
        {
            let x = lines[i];
            let pos = lower_bound(&sorted, x);
            proof {
                lemma_insert_multiset(sorted@, pos as int, x);
                broadcast use vstd::seq_lib::group_to_multiset_ensures;
                assert(lines@.take(i + 1) =~= lines@.take(i as int).push(x));
            }
            sorted.insert(pos, x);
            assert(sorted_ids(sorted@)) by {
                assert forall|a: int, b: int| 0 <= a < b < sorted@.len() implies sorted@[a].0 <= sorted@[b].0 by {
                    let old_s = sorted@.remove(pos as int);
                    if a < pos && b == pos {
                    } else if a == pos && b > pos {
                        assert(sorted@[b] == old_s[b - 1]);
                    } else if a < pos && b < pos {
                        assert(sorted@[a] == old_s[a]);
                        assert(sorted@[b] == old_s[b]);
                    } else if a < pos {
                        assert(sorted@[a] == old_s[a]);
                        assert(sorted@[b] == old_s[b - 1]);
                    } else {
                        assert(sorted@[a] == old_s[a - 1]);
                        assert(sorted@[b] == old_s[b - 1]);
                    }
                }
            }
            i = i + 1;
        }
        assert(lines@.take(lines@.len() as int) =~= lines@);
        proof {
            if lines@.no_duplicates() {
                lines@.lemma_multiset_has_no_duplicates();
                sorted@.lemma_multiset_has_no_duplicates_conv();
                assert forall|a: int, b: int| 0 <= a < b < sorted@.len() implies sorted@[a].0 < sorted@[b].0 by {
                    assert(sorted@[a] != sorted@[b]);
                    assert(sorted@[a].0 <= sorted@[b].0);
                }
            }
        }
        self.lines = sorted;
    }

    /// A getter for the lines that use this edge, in ascending order.
    pub fn get_lines(&self) -> (r: &[LineID])
        ensures
            r@ == self@.lines,
    {
        self.lines.as_slice()
    }

    /// Add a line to the lines using the edge if it isn't there yet, at the
    /// place that keeps them in ascending order.
    pub fn add_line(&mut self, line: LineID)
        requires
            sorted_ids(old(self)@.lines),
        ensures
            old(self)@.lines.contains(line) ==> final(self)@ == old(self)@,
            !old(self)@.lines.contains(line) ==> final(self)@ == (EdgeView {
                lines: old(self)@.lines.insert(insertion_point(old(self)@.lines, line.0), line),
                ..old(self)@
            }),
            final(self)@ == (EdgeView { lines: lines_with(old(self)@.lines, line), ..old(self)@ }),
            forall|x: LineID| #[trigger] final(self)@.lines.contains(x) <==> old(self)@.lines.contains(x) || x == line,
            final(self)@.lines.to_set() == old(self)@.lines.to_set().insert(line),
            sorted_ids(final(self)@.lines),
            strictly_sorted_ids(old(self)@.lines) ==> strictly_sorted_ids(final(self)@.lines),
    {
        proof {
            lemma_lines_with_members(self@.lines, line);
        }
        let pos = lower_bound(&self.lines, line);
        if pos < self.lines.len() && self.lines[pos] == line {
            return;
        }
        proof {
            if self.lines@.contains(line) {
                let k = choose|k: int| 0 <= k < self.lines@.len() && #[trigger] self.lines@[k] == line;
                if k >= pos && k > pos {
                    assert(self.lines@[pos as int].0 <= self.lines@[k].0);
                }
            }
            assert forall|i: int| pos <= i < self.lines@.len() implies self.lines@[i].0 > line.0 by {
                assert(self.lines@[i].0 >= line.0);
                if self.lines@[i].0 == line.0 {
                    assert(self.lines@[pos as int].0 <= self.lines@[i].0);
                    assert(self.lines@[pos as int] == line);
                }
            }
        }
        let ghost old_lines = self.lines@;
        proof {
            lemma_insertion_point(old_lines, line.0, pos as int);
        }
        let mut lines: Vec<LineID> = Vec::new();
        std::mem::swap(&mut lines, &mut self.lines);
        lines.insert(pos, line);
        assert(sorted_ids(lines@)) by {
            assert forall|a: int, b: int| 0 <= a < b < lines@.len() implies lines@[a].0 <= lines@[b].0 by {
                if a < pos && b == pos {
                } else if a == pos && b > pos {
                    assert(lines@[b] == old_lines[b - 1]);
                } else if b < pos {
                    assert(lines@[a] == old_lines[a]);
                    assert(lines@[b] == old_lines[b]);
                } else if a < pos {
                    assert(lines@[a] == old_lines[a]);
                    assert(lines@[b] == old_lines[b - 1]);
                } else {
                    assert(lines@[a] == old_lines[a - 1]);
                    assert(lines@[b] == old_lines[b - 1]);
                }
            }
        }
        assert(strictly_sorted_ids(old_lines) ==> strictly_sorted_ids(lines@)) by {
            if strictly_sorted_ids(old_lines) {
                assert forall|a: int, b: int| 0 <= a < b < lines@.len() implies lines@[a].0 < lines@[b].0 by {
                    if a < pos && b == pos {
                    } else if a == pos && b > pos {
                        assert(lines@[b] == old_lines[b - 1]);
                    } else if b < pos {
                        assert(lines@[a] == old_lines[a]);
                        assert(lines@[b] == old_lines[b]);
                    } else if a < pos {
                        assert(lines@[a] == old_lines[a]);
                        assert(lines@[b] == old_lines[b - 1]);
                    } else {
                        assert(lines@[a] == old_lines[a - 1]);
                        assert(lines@[b] == old_lines[b - 1]);
                    }
                }
            }
        }
        self.lines = lines;
    }

    /// Remove a line from the lines using the edge if it is there (its first
    /// occurrence).
    pub fn remove_line(&mut self, line: LineID)
        requires
            sorted_ids(old(self)@.lines),
        ensures
            !old(self)@.lines.contains(line) ==> final(self)@ == old(self)@,
            old(self)@.lines.contains(line) ==> {
                let pos = insertion_point(old(self)@.lines, line.0);
                &&& 0 <= pos < old(self)@.lines.len()
                &&& old(self)@.lines[pos] == line
                &&& final(self)@ == (EdgeView { lines: old(self)@.lines.remove(pos), ..old(self)@ })
            },
            final(self)@ == (EdgeView { lines: lines_without(old(self)@.lines, line), ..old(self)@ }),
            strictly_sorted_ids(old(self)@.lines) ==> forall|x: LineID| #[trigger] final(self)@.lines.contains(x)
                <==> old(self)@.lines.contains(x) && x != line,
            strictly_sorted_ids(old(self)@.lines) ==> final(self)@.lines.to_set() == old(self)@.lines.to_set().remove(line),
            sorted_ids(final(self)@.lines),
            strictly_sorted_ids(old(self)@.lines) ==> strictly_sorted_ids(final(self)@.lines),
    {
        proof {
            if strictly_sorted_ids(self@.lines) {
                lemma_lines_without_members(self@.lines, line);
            }
        }
        let pos = lower_bound(&self.lines, line);
        if pos < self.lines.len() && self.lines[pos] == line {
            let ghost old_lines = self.lines@;
            proof {
                lemma_insertion_point(old_lines, line.0, pos as int);
            }
            let mut lines: Vec<LineID> = Vec::new();
        std::mem::swap(&mut lines, &mut self.lines);
            lines.remove(pos);
            assert(sorted_ids(lines@)) by {
                assert forall|a: int, b: int| 0 <= a < b < lines@.len() implies lines@[a].0 <= lines@[b].0 by {
                    if b < pos {
                        assert(lines@[a] == old_lines[a]);
                        assert(lines@[b] == old_lines[b]);
                    } else if a < pos {
                        assert(lines@[a] == old_lines[a]);
                        assert(lines@[b] == old_lines[b + 1]);
                    } else {
                        assert(lines@[a] == old_lines[a + 1]);
                        assert(lines@[b] == old_lines[b + 1]);
                    }
                }
            }
            assert(strictly_sorted_ids(old_lines) ==> strictly_sorted_ids(lines@)) by {
                if strictly_sorted_ids(old_lines) {
                    assert forall|a: int, b: int| 0 <= a < b < lines@.len() implies lines@[a].0 < lines@[b].0 by {
                        if b < pos {
                            assert(lines@[a] == old_lines[a]);
                            assert(lines@[b] == old_lines[b]);
                        } else if a < pos {
                            assert(lines@[a] == old_lines[a]);
                            assert(lines@[b] == old_lines[b + 1]);
                        } else {
                            assert(lines@[a] == old_lines[a + 1]);
                            assert(lines@[b] == old_lines[b + 1]);
                        }
                    }
                }
            }
            self.lines = lines;
        } else {
            proof {
                if self.lines@.contains(line) {
                    let k = choose|k: int| 0 <= k < self.lines@.len() && #[trigger] self.lines@[k] == line;
                    assert(k >= pos);
                    if k > pos {
                        assert(self.lines@[pos as int].0 <= self.lines@[k].0);
                    }
                }
            }
        }
    }

    /// A getter for the nodes visited between the stations.
    pub fn get_nodes(&self) -> (r: &[GridNode])
        ensures
            r@ == self@.nodes,
    {
        self.nodes.as_slice()
    }

    /// A setter for the nodes visited between the stations.
    pub fn set_nodes(&mut self, nodes: Vec<GridNode>)
        ensures
            final(self)@ == (EdgeView { nodes: nodes@, ..old(self)@ }),
    {
        self.nodes = nodes;
    }

    /// Get the start and end nodes of the edge: all its nodes if it has fewer
    /// than three, else its first and its last node.
    pub fn get_edge_ends(&self) -> (r: Vec<GridNode>)
        ensures
            r@ == (if self@.nodes.len() < 3 {
                self@.nodes
            } else {
                seq![self@.nodes[0], self@.nodes.last()]
            }),
    {
        let n = self.nodes.len();
        if n < 3 {
            let mut out: Vec<GridNode> = Vec::new();
            let mut i: usize = 0;
            while i < n
                invariant
                    i <= n,
                    n == self.nodes@.len(),
                    out@ == self.nodes@.take(i as int),
                decreases n - i,
            {
                out.push(self.nodes[i]);
                assert(self.nodes@.take(i + 1) =~= self.nodes@.take(i as int).push(self.nodes@[i as int]));
                i = i + 1;
            }
            assert(self.nodes@.take(n as int) =~= self.nodes@);
            out
        } else {
            let v = vec![self.nodes[0], self.nodes[n - 1]];
            assert(v@ =~= seq![self@.nodes[0], self@.nodes.last()]);
            v
        }
    }

    /// A getter for if the edge is settled; a locked edge counts as settled.
    pub fn is_settled(&self) -> (r: bool)
        ensures
            r == (self@.is_settled || self@.is_locked),
    {
        self.is_settled || self.is_locked
    }

    /// Settle the edge.
    pub fn settle(&mut self)
        ensures
            final(self)@ == (EdgeView { is_settled: true, ..old(self)@ }),
    {
        self.is_settled = true;
    }

    /// Unsettle the edge.
    pub fn unsettle(&mut self)
        ensures
            final(self)@ == (EdgeView { is_settled: false, ..old(self)@ }),
    {
        self.is_settled = false;
    }

    /// A getter for if the edge is locked.
    pub fn is_locked(&self) -> (r: bool)
        ensures
            r == self@.is_locked,
    {
        self.is_locked
    }

    /// Lock the edge.
    pub fn lock(&mut self)
        ensures
            final(self)@ == (EdgeView { is_locked: true, ..old(self)@ }),
    {
        self.is_locked = true;
    }

    /// Unlock the edge.
    pub fn unlock(&mut self)
        ensures
            final(self)@ == (EdgeView { is_locked: false, ..old(self)@ }),
    {
        self.is_locked = false;
    }

    /// A getter for if the edge is selected.
    pub fn is_selected(&self) -> (r: bool)
        ensures
            r == self@.is_selected,
    {
        self.is_selected
    }

    /// Select the edge.
    pub fn select(&mut self)
        ensures
            final(self)@ == (EdgeView { is_selected: true, ..old(self)@ }),
    {
        self.is_selected = true;
    }

    /// Deselect the edge.
    pub fn deselect(&mut self)
        ensures
            final(self)@ == (EdgeView { is_selected: false, ..old(self)@ }),
    {
        self.is_selected = false;
    }

    /// Add a station to the contracted stations.
    pub fn add_contracted_station(&mut self, station: StationID)
        ensures
            final(self)@ == (EdgeView {
                contracted_stations: old(self)@.contracted_stations.push(station),
                ..old(self)@
            }),
    {
        let mut stations: Vec<StationID> = Vec::new();
        std::mem::swap(&mut stations, &mut self.contracted_stations);
        stations.push(station);
        self.contracted_stations = stations;
    }

    /// Extend the contracted stations with the given stations.
    pub fn extend_contracted_stations(&mut self, stations: &[StationID])
        ensures
            final(self)@ == (EdgeView {
                contracted_stations: old(self)@.contracted_stations + stations@,
                ..old(self)@
            }),
    {
        let mut all: Vec<StationID> = Vec::new();
        std::mem::swap(&mut all, &mut self.contracted_stations);
        let mut i: usize = 0;
        while i < stations.len()
            invariant
                i <= stations@.len(),
                all@ == old(self)@.contracted_stations + stations@.take(i as int),
            decreases stations@.len() - i,
        {
            all.push(stations[i]);
            assert(old(self)@.contracted_stations + stations@.take(i + 1) =~= (
            old(self)@.contracted_stations + stations@.take(i as int)).push(stations@[i as int]));
            i = i + 1;
        }
        assert(stations@.take(stations@.len() as int) =~= stations@);
        self.contracted_stations = all;
    }

    /// Get the contracted stations.
    pub fn get_contracted_stations(&self) -> (r: &[StationID])
        ensures
            r@ == self@.contracted_stations,
    {
        self.contracted_stations.as_slice()
    }

    /// Clear the contracted stations.
    pub fn clear_contracted_stations(&mut self)
        ensures
            final(self)@ == (EdgeView {
                contracted_stations: Seq::<StationID>::empty(),
                ..old(self)@
            }),
    {
        self.contracted_stations = Vec::new();
    }
}

impl Clone for Edge {
    fn clone(&self) -> (r: Self)
        ensures
            r@ == self@,
    {
        Edge {
            id: self.id,
            from: self.from,
            to: self.to,
            nodes: copy_vec(&self.nodes),
            lines: copy_vec(&self.lines),
            is_settled: self.is_settled,
            is_locked: self.is_locked,
            is_selected: self.is_selected,
            contracted_stations: copy_vec(&self.contracted_stations),
        }
    }
}

impl PartialEq for Edge {
    fn eq(&self, other: &Edge) -> (r: bool) {
        self.id == other.id
    }
}

impl vstd::std_specs::cmp::PartialEqSpecImpl for Edge {
    open spec fn obeys_eq_spec() -> bool {
        true
    }

    open spec fn eq_spec(&self, other: &Edge) -> bool {
        self@.id == other@.id
    }
}

/// Taking the other end of an edge twice gives back the station started from.
pub proof fn lemma_opposite_involution(e: EdgeView, s: StationID)
    requires
        e.from == s || e.to == s,
    ensures
        ({
            let o = if e.from == s { e.to } else { e.from };
            (if e.from == o { e.to } else if e.to == o { e.from } else { o }) == s
                || e.from == e.to
        }),
{
}

/// Adding a line to sorted lines gives exactly the old lines and the new
/// one, and adding it a second time changes nothing.
pub proof fn lemma_lines_with_members(s: Seq<LineID>, line: LineID)
    requires
        sorted_ids(s),
    ensures
        forall|x: LineID| #[trigger] lines_with(s, line).contains(x) <==> s.contains(x) || x == line,
        lines_with(s, line).to_set() == s.to_set().insert(line),
        lines_with(lines_with(s, line), line) == lines_with(s, line),
{
    if !s.contains(line) {
        let p = lemma_split_point_exists(s, line.0);
        lemma_insertion_point(s, line.0, p);
        let t = s.insert(p, line);
        assert(t[p] == line);
        assert forall|x: LineID| #[trigger] t.contains(x) <==> s.contains(x) || x == line by {
            if t.contains(x) {
                let i = choose|i: int| 0 <= i < t.len() && t[i] == x;
                if i < p {
                    assert(s[i] == x);
                } else if i > p {
                    assert(s[i - 1] == x);
                }
            }
            if s.contains(x) {
                let i = choose|i: int| 0 <= i < s.len() && s[i] == x;
                if i < p {
                    assert(t[i] == x);
                } else {
                    assert(t[i + 1] == x);
                }
            }
        }
    }
    assert(lines_with(s, line).to_set() =~= s.to_set().insert(line));
}

/// Removing a line from strictly sorted lines leaves exactly the other
/// lines.
pub proof fn lemma_lines_without_members(s: Seq<LineID>, line: LineID)
    requires
        strictly_sorted_ids(s),
    ensures
        forall|x: LineID| #[trigger] lines_without(s, line).contains(x) <==> s.contains(x) && x != line,
        lines_without(s, line).to_set() == s.to_set().remove(line),
{
    if s.contains(line) {
        let p = lemma_split_point_exists(s, line.0);
        lemma_insertion_point(s, line.0, p);
        let k = choose|k: int| 0 <= k < s.len() && s[k] == line;
        assert(p == k) by {
            if k < p {
                assert(s[k].0 < line.0);
            } else if k > p {
                assert(s[p].0 >= line.0);
                assert(s[p].0 < s[k].0);
            }
        }
        let t = s.remove(p);
        assert forall|x: LineID| #[trigger] t.contains(x) <==> s.contains(x) && x != line by {
            if t.contains(x) {
                let i = choose|i: int| 0 <= i < t.len() && t[i] == x;
                if i < p {
                    assert(s[i] == x);
                    assert(s[i].0 < s[p].0);
                } else {
                    assert(s[i + 1] == x);
                    assert(s[p].0 < s[i + 1].0);
                }
            }
            if s.contains(x) && x != line {
                let i = choose|i: int| 0 <= i < s.len() && s[i] == x;
                if i < p {
                    assert(t[i] == x);
                } else {
                    assert(i != p);
                    assert(t[i - 1] == x);
                }
            }
        }
    }
    assert(lines_without(s, line).to_set() =~= s.to_set().remove(line));
}

/// Removing a line that adding put on sorted lines gives back the lines
/// that were there before.
pub proof fn lemma_remove_line_undoes_add(s: Seq<LineID>, line: LineID)
    requires
        sorted_ids(s),
        !s.contains(line),
    ensures
        lines_without(lines_with(s, line), line) == s,
{
    lemma_add_then_remove_line(s, line);
}

/// Adding a line to an edge that did not have it and then removing it again
/// gives back the lines the edge had.
pub proof fn lemma_add_then_remove_line(lines: Seq<LineID>, line: LineID)
    requires
        sorted_ids(lines),
        !lines.contains(line),
    ensures
        ({
            let added = lines.insert(insertion_point(lines, line.0), line);
            &&& added.contains(line)
            &&& added.remove(insertion_point(added, line.0)) == lines
        }),
{
    let pos = insertion_point(lines, line.0);
    let p = lemma_split_point_exists(lines, line.0);
    lemma_insertion_point(lines, line.0, p);
    let added = lines.insert(p, line);
    assert(added[p] == line);
    assert(splits_at(added, line.0, p)) by {
        assert forall|i: int| p <= i < added.len() implies added[i].0 >= line.0 by {
            if i > p {
                assert(added[i] == lines[i - 1]);
            }
        }
    }
    lemma_insertion_point(added, line.0, p);
    assert(added.remove(p) =~= lines);
}

} // verus!
