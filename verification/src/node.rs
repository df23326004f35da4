//! Nodes of the triangular lattice and the arithmetic on them.

use vstd::prelude::*;

verus! {

/// A node of the lattice: a pair of coordinates.
pub type Node = (i8, i8);

/// Strict lexicographic order on nodes, the order of `(i8, i8)` tuples.
pub open spec fn node_lt(a: Node, b: Node) -> bool {
    a.0 < b.0 || (a.0 == b.0 && a.1 < b.1)
}

/// Non-strict lexicographic order on nodes.
pub open spec fn node_le(a: Node, b: Node) -> bool {
    node_lt(a, b) || a == b
}

/// The coordinates of `n` are far enough from the limits of `i8` that all six
/// lattice neighbours of `n` can be computed.
pub open spec fn node_in_bounds(n: Node) -> bool {
    -127 <= n.0 <= 126 && -126 <= n.1 <= 125
}

/// The six neighbours of `n` in the infinite lattice, in the order in which
/// they are listed.
pub open spec fn spec_neighbors(n: Node) -> Seq<Node> {
    let (x, y) = n;
    seq![
        ((x - 1) as i8, (y - 1) as i8),
        ((x - 1) as i8, (y + 1) as i8),
        (x, (y - 2) as i8),
        (x, (y + 2) as i8),
        ((x + 1) as i8, (y - 1) as i8),
        ((x + 1) as i8, (y + 1) as i8),
    ]
}

/// `m` is one of the six lattice neighbours of `n`.
pub open spec fn is_neighbor(n: Node, m: Node) -> bool {
    let dx = m.0 - n.0;
    let dy = m.1 - n.1;
    ||| (dx == -1 && (dy == -1 || dy == 1))
    ||| (dx == 0 && (dy == -2 || dy == 2))
    ||| (dx == 1 && (dy == -1 || dy == 1))
}

/// `n + v`, component-wise, when it fits in `i8`.
pub open spec fn add_fits(n: Node, v: Node) -> bool {
    i8::MIN <= n.0 + v.0 <= i8::MAX && i8::MIN <= n.1 + v.1 <= i8::MAX
}

/// `n - v`, component-wise, when it fits in `i8`.
pub open spec fn sub_fits(n: Node, v: Node) -> bool {
    i8::MIN <= n.0 - v.0 <= i8::MAX && i8::MIN <= n.1 - v.1 <= i8::MAX
}

pub open spec fn spec_add(n: Node, v: Node) -> Node {
    ((n.0 + v.0) as i8, (n.1 + v.1) as i8)
}

pub open spec fn spec_sub(n: Node, v: Node) -> Node {
    ((n.0 - v.0) as i8, (n.1 - v.1) as i8)
}

/// Translating by a fixed vector is injective, even where it wraps.
pub proof fn lemma_add_injective(a: Node, b: Node, v: Node)
    requires
        spec_add(a, v) == spec_add(b, v),
    ensures
        a == b,
{
    let (a0, a1, b0, b1, v0, v1) = (a.0, a.1, b.0, b.1, v.0, v.1);
    assert(((a0 + v0) as i8 == (b0 + v0) as i8) ==> a0 == b0) by (bit_vector);
    assert(((a1 + v1) as i8 == (b1 + v1) as i8) ==> a1 == b1) by (bit_vector);
}

/// Compares two nodes in the lexicographic order.
pub fn node_less(a: &Node, b: &Node) -> (r: bool)
    ensures
        r == node_lt(*a, *b),
{
    a.0 < b.0 || (a.0 == b.0 && a.1 < b.1)
}

/// The neighbours of `n` in the infinite lattice.
pub fn neighbors(n: &Node) -> (r: [Node; 6])
    requires
        node_in_bounds(*n),
    ensures
        r@ == spec_neighbors(*n),
        forall|i: int| 0 <= i < 6 ==> is_neighbor(*n, #[trigger] r@[i]),
{
    let (x, y) = *n;
    let r = [
        (x - 1, y - 1),
        (x - 1, y + 1),
        (x, y - 2),
        (x, y + 2),
        (x + 1, y - 1),
        (x + 1, y + 1),
    ];
    assert(r@ =~= spec_neighbors(*n));
    r
}

/// The vector `n1 - n2` as a node.
pub fn node_sub(n1: Node, n2: Node) -> (r: Node)
    requires
        sub_fits(n1, n2),
    ensures
        r == spec_sub(n1, n2),
        r.0 == n1.0 - n2.0,
        r.1 == n1.1 - n2.1,
{
    (n1.0 - n2.0, n1.1 - n2.1)
}

/// The node `n + v`.
pub fn node_add(n: Node, v: Node) -> (r: Node)
    requires
        add_fits(n, v),
    ensures
        r == spec_add(n, v),
        r.0 == n.0 + v.0,
        r.1 == n.1 + v.1,
{
    (n.0 + v.0, n.1 + v.1)
}

/// The node with both coordinates negated.
pub fn flip(node: Node) -> (r: Node)
    requires
        node.0 > i8::MIN,
        node.1 > i8::MIN,
    ensures
        r.0 == -node.0,
        r.1 == -node.1,
{
    (-node.0, -node.1)
}

/// The lexicographic order on nodes is a strict total order.
pub proof fn lemma_node_order(a: Node, b: Node, c: Node)
    ensures
        !node_lt(a, a),
        node_lt(a, b) ==> !node_lt(b, a),
        node_lt(a, b) && node_lt(b, c) ==> node_lt(a, c),
        a != b ==> node_lt(a, b) || node_lt(b, a),
{
}

} // verus!
