//! Contains the [`GridNode`] struct and its methods.
use vstd::prelude::*;

verus! {

/// Represents a node on the grid, as its x and y coordinate.
#[derive(Clone, Copy, Debug, PartialEq, Eq, Structural, Hash)]
pub struct GridNode(pub i32, pub i32);

/// The absolute value of an integer.
pub open spec fn abs(v: int) -> int {
    if v < 0 {
        -v
    } else {
        v
    }
}

/// The Manhattan distance between two grid nodes.
pub open spec fn manhattan(a: GridNode, b: GridNode) -> int {
    abs(a.0 - b.0) + abs(a.1 - b.1)
}

/// If two grid nodes are at most one step apart in both directions (a node
/// counts as its own neighbor here).
pub open spec fn adjacent_or_same(a: GridNode, b: GridNode) -> bool {
    abs(a.0 - b.0) <= 1 && abs(a.1 - b.1) <= 1
}

/// If all eight nodes around `n` exist on the grid.
pub open spec fn has_all_neighbors(n: GridNode) -> bool {
    i32::MIN < n.0 < i32::MAX && i32::MIN < n.1 < i32::MAX
}

/// The eight nodes around `n`, clockwise starting at the top left.
pub open spec fn neighbors_of(n: GridNode) -> Seq<GridNode> {
    seq![
        GridNode((n.0 - 1) as i32, (n.1 - 1) as i32),
        GridNode(n.0, (n.1 - 1) as i32),
        GridNode((n.0 + 1) as i32, (n.1 - 1) as i32),
        GridNode((n.0 + 1) as i32, n.1),
        GridNode((n.0 + 1) as i32, (n.1 + 1) as i32),
        GridNode(n.0, (n.1 + 1) as i32),
        GridNode((n.0 - 1) as i32, (n.1 + 1) as i32),
        GridNode((n.0 - 1) as i32, n.1),
    ]
}

impl GridNode {
    /// Create a new [`GridNode`] with the given x and y coordinates.
    pub fn new(x: i32, y: i32) -> (r: Self)
        ensures
            r == GridNode(x, y),
    {
        GridNode(x, y)
    }

    /// Get the Manhattan distance to a target node.
    pub fn manhattan_distance_to(self, target: GridNode) -> (r: i32)
        requires
            manhattan(self, target) <= i32::MAX,
        ensures
            r == manhattan(self, target),
    {
        let dx: i64 = (self.0 as i64) - (target.0 as i64);
        let dy: i64 = (self.1 as i64) - (target.1 as i64);
        let adx: i64 = if dx < 0 { -dx } else { dx };
        let ady: i64 = if dy < 0 { -dy } else { dy };
        (adx + ady) as i32
    }

    /// Get a list of all the neighbors of this grid node.
    pub fn get_neighbors(self) -> (r: Vec<GridNode>)
        requires
            has_all_neighbors(self),
        ensures
            r@ == neighbors_of(self),
    {
        let v = vec![
            GridNode(self.0 - 1, self.1 - 1),
            GridNode(self.0, self.1 - 1),
            GridNode(self.0 + 1, self.1 - 1),
            GridNode(self.0 + 1, self.1),
            GridNode(self.0 + 1, self.1 + 1),
            GridNode(self.0, self.1 + 1),
            GridNode(self.0 - 1, self.1 + 1),
            GridNode(self.0 - 1, self.1),
        ];
        assert(v@ =~= neighbors_of(self));
        v
    }

    /// Check if this node is a neighbor of another node (or the node itself).
    pub fn is_neighbor_of(&self, other: &GridNode) -> (r: bool)
        ensures
            r == adjacent_or_same(*self, *other),
    {
        let dx: i64 = (self.0 as i64) - (other.0 as i64);
        let dy: i64 = (self.1 as i64) - (other.1 as i64);
        -1 <= dx && dx <= 1 && -1 <= dy && dy <= 1
    }
}

impl From<(i32, i32)> for GridNode {
    fn from(value: (i32, i32)) -> (r: Self) {
        GridNode(value.0, value.1)
    }
}

impl vstd::std_specs::convert::FromSpecImpl<(i32, i32)> for GridNode {
    open spec fn obeys_from_spec() -> bool {
        true
    }

    open spec fn from_spec(v: (i32, i32)) -> Self {
        GridNode(v.0, v.1)
    }
}

/// The Manhattan distance is symmetric.
pub proof fn lemma_manhattan_symmetric(a: GridNode, b: GridNode)
    ensures
        manhattan(a, b) == manhattan(b, a),
{
}

/// A node is a neighbor of another exactly when it is one of the eight nodes
/// around it.
pub proof fn lemma_neighbors_are_adjacent(n: GridNode, m: GridNode)
    requires
        has_all_neighbors(n),
    ensures
        neighbors_of(n).contains(m) <==> (adjacent_or_same(n, m) && m != n),
{
    let s = neighbors_of(n);
    if adjacent_or_same(n, m) && m != n {
        if m.1 == n.1 - 1 {
            if m.0 == n.0 - 1 {
                assert(s[0] == m);
            } else if m.0 == n.0 {
                assert(s[1] == m);
            } else {
                assert(s[2] == m);
            }
        } else if m.1 == n.1 {
            if m.0 == n.0 + 1 {
                assert(s[3] == m);
            } else {
                assert(s[7] == m);
            }
        } else {
            if m.0 == n.0 + 1 {
                assert(s[4] == m);
            } else if m.0 == n.0 {
                assert(s[5] == m);
            } else {
                assert(s[6] == m);
            }
        }
    }
}

/// The eight neighbors of a node are all different.
pub proof fn lemma_neighbors_distinct(n: GridNode)
    requires
        has_all_neighbors(n),
    ensures
        neighbors_of(n).no_duplicates(),
        neighbors_of(n).len() == 8,
{
}

/// Being neighbors is symmetric, and every node is a neighbor of itself.
pub proof fn lemma_neighbor_symmetric(a: GridNode, b: GridNode)
    ensures
        adjacent_or_same(a, b) == adjacent_or_same(b, a),
        adjacent_or_same(a, a),
{
}

} // verus!
