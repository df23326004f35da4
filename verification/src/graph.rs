//! Undirected graphs on numbered nodes, and the processing of metagraphs:
//! longest shortest paths, and decomposition along small cuts.

use vstd::prelude::*;
use std::collections::HashSet;
use rustworkx_core::connectivity::{connected_components, stoer_wagner_min_cut};
use rustworkx_core::petgraph::graph::{NodeIndex, UnGraph};

verus! {

broadcast use vstd::std_specs::hash::group_hash_axioms;

/// An undirected graph on the nodes `0 .. node_count`, with its edges in the
/// order in which they were added.
pub struct UGraph {
    pub node_count: usize,
    pub edges: Vec<(usize, usize)>,
}

impl UGraph {
    /// Every edge joins two nodes of the graph.
    pub open spec fn wf(&self) -> bool {
        forall|e: int| 0 <= e < self.edges@.len() ==> (#[trigger] self.edges@[e]).0 < self.node_count && self.edges@[e].1 < self.node_count
    }

    /// `a` and `b` are joined by an edge.
    pub open spec fn adjacent(&self, a: int, b: int) -> bool {
        exists|e: int| 0 <= e < self.edges@.len() && ((#[trigger] self.edges@[e]).0 == a && self.edges@[e].1 == b
            || self.edges@[e].0 == b && self.edges@[e].1 == a)
    }

    /// The graph is small enough for the graph library, whose indices are
    /// 32 bits wide with the largest value reserved.
    pub open spec fn fits(&self) -> bool {
        self.node_count < u32::MAX && self.edges@.len() < u32::MAX
    }
}

/// The `i`-th step of `p` follows an edge of `g`.
pub open spec fn step(g: &UGraph, p: Seq<usize>, i: int) -> bool {
    g.adjacent(p[i] as int, p[i + 1] as int)
}

/// `p` is a walk in `g`: a nonempty sequence of nodes, each joined to the
/// next by an edge.
pub open spec fn is_walk(g: &UGraph, p: Seq<usize>) -> bool {
    p.len() > 0 && forall|i: int| 0 <= i < p.len() - 1 ==> #[trigger] step(g, p, i)
}

/// There is a walk in `g` from `a` to `b` with at most `k` steps.
pub open spec fn walk_within(g: &UGraph, a: usize, b: usize, k: int) -> bool {
    exists|p: Seq<usize>| #[trigger] is_walk(g, p) && p[0] == a && p.last() == b && p.len() <= k + 1
}

/// The nodes `0 .. n`.
pub open spec fn below(n: nat) -> Set<usize> {
    Set::new(|i: usize| i < n)
}

/// `side` is one side of a cut of the nodes `active`: a part of them that
/// is neither empty nor all of them.
pub open spec fn proper_part(side: Set<usize>, active: Set<usize>) -> bool {
    &&& side.subset_of(active)
    &&& exists|x: usize| side.contains(x)
    &&& exists|y: usize| active.contains(y) && !side.contains(y)
}

/// The edges among `edges`, in their order, with both ends in `active` and
/// exactly one end in `side`.
pub open spec fn crossing(edges: Seq<(usize, usize)>, active: Set<usize>, side: Set<usize>) -> Seq<(usize, usize)>
    decreases edges.len(),
{
    if edges.len() == 0 {
        seq![]
    } else {
        let rest = crossing(edges.drop_last(), active, side);
        let e = edges.last();
        if active.contains(e.0) && active.contains(e.1) && side.contains(e.0) != side.contains(e.1) {
            rest.push(e)
        } else {
            rest
        }
    }
}

/// The last position of `u` in `nodes`, or `-1`.
pub open spec fn position(nodes: Seq<usize>, u: usize) -> int
    decreases nodes.len(),
{
    if nodes.len() == 0 {
        -1
    } else if nodes.last() == u {
        nodes.len() - 1
    } else {
        position(nodes.drop_last(), u)
    }
}

/// The edges among `edges` with both ends in `nodes`, in their order, each
/// renamed to the positions of its ends in `nodes`.
pub open spec fn induced_edges(edges: Seq<(usize, usize)>, nodes: Seq<usize>) -> Seq<(usize, usize)>
    decreases edges.len(),
{
    if edges.len() == 0 {
        seq![]
    } else {
        let rest = induced_edges(edges.drop_last(), nodes);
        let e = edges.last();
        if nodes.contains(e.0) && nodes.contains(e.1) {
            rest.push((position(nodes, e.0) as usize, position(nodes, e.1) as usize))
        } else {
            rest
        }
    }
}

/// The positions in `nodes` of the nodes of `side`.
pub open spec fn positions_in(nodes: Seq<usize>, side: Set<usize>) -> Set<usize> {
    Set::new(|i: usize| i < nodes.len() && side.contains(nodes[i as int]))
}

/// The nodes of `nodes` at the positions `part`.
pub open spec fn nodes_at(nodes: Seq<usize>, part: Set<usize>) -> Set<usize> {
    Set::new(|u: usize| exists|i: usize| part.contains(i) && i < nodes.len() && nodes[i as int] == u)
}

proof fn lemma_position(nodes: Seq<usize>, i: int)
    requires
        nodes.no_duplicates(),
        0 <= i < nodes.len(),
    ensures
        position(nodes, nodes[i]) == i,
    decreases nodes.len(),
{
    if i < nodes.len() - 1 {
        assert(nodes.last() != nodes[i]);
        lemma_position(nodes.drop_last(), i);
    }
}

proof fn lemma_position_in(nodes: Seq<usize>, u: usize)
    requires
        nodes.contains(u),
    ensures
        0 <= position(nodes, u) < nodes.len(),
        nodes[position(nodes, u)] == u,
    decreases nodes.len(),
{
    if nodes.last() != u {
        let j = choose|j: int| 0 <= j < nodes.len() && nodes[j] == u;
        assert(nodes.drop_last()[j] == u);
        lemma_position_in(nodes.drop_last(), u);
    }
}

/// Renaming a graph to the positions of its nodes keeps the cuts: the
/// edges that cross a side of `nodes` are as many as those of the renamed
/// graph that cross the positions of that side.
proof fn lemma_crossing_induced(edges: Seq<(usize, usize)>, nodes: Seq<usize>, side: Set<usize>)
    requires
        nodes.no_duplicates(),
        nodes.len() <= usize::MAX,
    ensures
        crossing(induced_edges(edges, nodes), below(nodes.len()), positions_in(nodes, side)).len()
            == crossing(edges, nodes.to_set(), side).len(),
    decreases edges.len(),
{
    if edges.len() > 0 {
        lemma_crossing_induced(edges.drop_last(), nodes, side);
        let e = edges.last();
        if nodes.contains(e.0) && nodes.contains(e.1) {
            lemma_position_in(nodes, e.0);
            lemma_position_in(nodes, e.1);
            let p0 = position(nodes, e.0) as usize;
            let p1 = position(nodes, e.1) as usize;
            assert(positions_in(nodes, side).contains(p0) == side.contains(e.0));
            assert(positions_in(nodes, side).contains(p1) == side.contains(e.1));
            assert(below(nodes.len()).contains(p0));
            assert(below(nodes.len()).contains(p1));
            assert(induced_edges(edges, nodes).drop_last() == induced_edges(edges.drop_last(), nodes));
        }
        assert(nodes.to_set().contains(e.0) == nodes.contains(e.0));
        assert(nodes.to_set().contains(e.1) == nodes.contains(e.1));
    }
}

/// The positions of the nodes at some positions are those positions.
proof fn lemma_positions_of_nodes_at(nodes: Seq<usize>, part: Set<usize>)
    requires
        nodes.no_duplicates(),
        part.subset_of(below(nodes.len())),
    ensures
        positions_in(nodes, nodes_at(nodes, part)) == part,
{
    assert forall|i: usize| positions_in(nodes, nodes_at(nodes, part)).contains(i) <==> part.contains(i) by {
        if positions_in(nodes, nodes_at(nodes, part)).contains(i) {
            let j = choose|j: usize| part.contains(j) && j < nodes.len() && nodes[j as int] == nodes[i as int];
            assert(j == i);
        }
        if part.contains(i) {
            assert(below(nodes.len()).contains(i));
            assert(nodes_at(nodes, part).contains(nodes[i as int]));
        }
    }
    assert(positions_in(nodes, nodes_at(nodes, part)) =~= part);
}

/// A side of a cut of `nodes` corresponds to a side of a cut of their
/// positions.
proof fn lemma_positions_proper(nodes: Seq<usize>, side: Set<usize>)
    requires
        nodes.no_duplicates(),
        nodes.len() <= usize::MAX,
        proper_part(side, nodes.to_set()),
    ensures
        proper_part(positions_in(nodes, side), below(nodes.len())),
{
    let x = choose|x: usize| side.contains(x);
    let y = choose|y: usize| nodes.to_set().contains(y) && !side.contains(y);
    assert(nodes.to_set().contains(x));
    lemma_position_in(nodes, x);
    lemma_position_in(nodes, y);
    let px = position(nodes, x) as usize;
    let py = position(nodes, y) as usize;
    assert(positions_in(nodes, side).contains(px));
    assert(below(nodes.len()).contains(py) && !positions_in(nodes, side).contains(py));
}

/// `u` lies in one of `parts`.
pub open spec fn in_part(parts: Seq<Vec<usize>>, u: usize) -> bool {
    exists|c: int| 0 <= c < parts.len() && (#[trigger] parts[c])@.contains(u)
}

/// `rustworkx_core::connectivity::stoer_wagner_min_cut`, run with cost 1
/// on each edge of the graph with the nodes `0 .. node_count` and the edges
/// of `g`.  As its documentation says, it returns nothing for a graph of
/// fewer than two nodes, and otherwise the value of a minimum cut and the
/// nodes of one side of a cut of that value.  Stated: that side is a
/// nonempty part of the nodes, without repeats, that leaves some node out;
/// the value is the number of edges that cross it; no side of any cut is
/// crossed by fewer edges.  Which of several minimum cuts comes back
/// depends on the hashing of the graph library's priority queue, and is
/// not stated.
#[verifier::external_body]
fn min_cut(g: &UGraph) -> (r: Option<(usize, Vec<usize>)>)
    requires
        g.wf(),
        g.fits(),
    ensures
        r is None <==> g.node_count < 2,
        r matches Some((value, part)) ==> {
            &&& part@.no_duplicates()
            &&& proper_part(part@.to_set(), below(g.node_count as nat))
            &&& value == crossing(g.edges@, below(g.node_count as nat), part@.to_set()).len()
            &&& forall|s: Set<usize>| #[trigger] proper_part(s, below(g.node_count as nat))
                ==> crossing(g.edges@, below(g.node_count as nat), s).len() >= value
        },
{
    let mut pg = UnGraph::<(), ()>::with_capacity(g.node_count, g.edges.len());
    for _ in 0..g.node_count {
        pg.add_node(());
    }
    for &(u, v) in g.edges.iter() {
        pg.add_edge(NodeIndex::new(u), NodeIndex::new(v), ());
    }
    let res: Result<Option<(usize, Vec<NodeIndex>)>, ()> = stoer_wagner_min_cut(&pg, |e| unit_cost(e));
    match res {
        Ok(Some((value, part))) => Some((value, part.iter().map(|n| n.index()).collect())),
        _ => None,
    }
}

/// `rustworkx_core::connectivity::connected_components` on the graph with
/// the nodes `0 .. node_count` and the edges of `g`.  Stated: the parts
/// are nonempty and without repeats, every node lies in exactly one part,
/// no edge joins two parts, and any two nodes of a part are joined by a
/// walk.  Not stated: the order of the nodes within a part, which comes
/// from a hash set.
#[verifier::external_body]
fn components(g: &UGraph) -> (r: Vec<Vec<usize>>)
    requires
        g.wf(),
        g.fits(),
    ensures
        forall|c: int| 0 <= c < r.len() ==> (#[trigger] r@[c])@.no_duplicates() && r@[c].len() > 0,
        forall|c: int, i: int| 0 <= c < r.len() && 0 <= i < r@[c].len() ==> (#[trigger] r@[c]@[i]) < g.node_count,
        forall|u: usize| u < g.node_count ==> #[trigger] in_part(r@, u),
        forall|c1: int, c2: int, u: usize|
            0 <= c1 < r.len() && 0 <= c2 < r.len() && c1 != c2 && #[trigger] r@[c1]@.contains(u)
                ==> !(#[trigger] r@[c2]@.contains(u)),
        forall|c: int, e: int| 0 <= c < r.len() && 0 <= e < g.edges.len()
            ==> (#[trigger] r@[c]@.contains(#[trigger] g.edges@[e].0) <==> r@[c]@.contains(g.edges@[e].1)),
        forall|c: int, u: usize, v: usize| 0 <= c < r.len() && #[trigger] r@[c]@.contains(u) && #[trigger] r@[c]@.contains(v)
            ==> walk_within(g, u, v, g.node_count as int),
{
    let mut pg = UnGraph::<(), ()>::with_capacity(g.node_count, g.edges.len());
    for _ in 0..g.node_count {
        pg.add_node(());
    }
    for &(u, v) in g.edges.iter() {
        pg.add_edge(NodeIndex::new(u), NodeIndex::new(v), ());
    }
    connected_components(&pg).into_iter().map(|c| c.into_iter().map(|n| n.index()).collect()).collect()
}

/// Every edge costs 1 in a cut.
fn unit_cost<E>(_e: E) -> (r: Result<usize, ()>)
    ensures
        r == Ok::<usize, ()>(1),
{
    Ok(1)
}

/// A cut in an unweighted graph.
#[derive(Debug, Clone)]
pub struct Cut {
    /// One side of the cut, as nodes of the whole graph.
    pub side_a: Vec<usize>,
    /// The edges of the cut.
    pub cut_edges: Vec<(usize, usize)>,
}

/// `c` is a cut of the nodes `active` of `g` of least size, crossed by at
/// least one and fewer than `k_stop` edges, where `active` has at least two
/// and at least `min_size` nodes.
pub open spec fn bottleneck(g: &UGraph, active: Set<usize>, c: Cut, k_stop: usize, min_size: usize) -> bool {
    &&& active.finite()
    &&& active.len() >= 2
    &&& active.len() >= min_size
    &&& c.side_a@.no_duplicates()
    &&& proper_part(c.side_a@.to_set(), active)
    &&& c.cut_edges@ == crossing(g.edges@, active, c.side_a@.to_set())
    &&& 0 < c.cut_edges@.len() < k_stop
    &&& forall|s: Set<usize>| #[trigger] proper_part(s, active) ==> crossing(g.edges@, active, s).len() >= c.cut_edges@.len()
}

/// `c` is a cut of least size of some part of `nodes`, as `bottleneck`
/// says.
pub open spec fn bottleneck_within(g: &UGraph, nodes: Set<usize>, c: Cut, k_stop: usize, min_size: usize) -> bool {
    exists|active: Set<usize>| active.subset_of(nodes) && #[trigger] bottleneck(g, active, c, k_stop, min_size)
}

/// `after` is `before` followed by cuts of least size of parts of `nodes`.
pub open spec fn grows_by_bottlenecks(g: &UGraph, nodes: Set<usize>, k_stop: usize, min_size: usize, before: Seq<Cut>, after: Seq<Cut>) -> bool {
    &&& after.len() >= before.len()
    &&& after.subrange(0, before.len() as int) == before
    &&& forall|i: int| before.len() <= i < after.len() ==> #[trigger] bottleneck_within(g, nodes, after[i], k_stop, min_size)
}

/// Every cut of `nodes` of `g` is crossed by at least one edge and by at
/// least `k` edges.
pub open spec fn cuts_at_least(g: &UGraph, nodes: Set<usize>, k: int) -> bool {
    forall|s: Set<usize>| #[trigger] proper_part(s, nodes) ==> crossing(g.edges@, nodes, s).len() >= k
}

/// Some cut of `nodes` of `g` is crossed by fewer than `k` edges.
pub open spec fn cut_below(g: &UGraph, nodes: Set<usize>, k: int) -> bool {
    exists|s: Set<usize>| #[trigger] proper_part(s, nodes) && crossing(g.edges@, nodes, s).len() < k
}

proof fn lemma_grows_weaken(g: &UGraph, small: Set<usize>, big: Set<usize>, k_stop: usize, min_size: usize, before: Seq<Cut>, after: Seq<Cut>)
    requires
        grows_by_bottlenecks(g, small, k_stop, min_size, before, after),
        small.subset_of(big),
    ensures
        grows_by_bottlenecks(g, big, k_stop, min_size, before, after),
{
    assert forall|i: int| before.len() <= i < after.len() implies #[trigger] bottleneck_within(g, big, after[i], k_stop, min_size) by {
        assert(bottleneck_within(g, small, after[i], k_stop, min_size));
        let active = choose|active: Set<usize>| active.subset_of(small) && #[trigger] bottleneck(g, active, after[i], k_stop, min_size);
        assert(active.subset_of(big));
    }
}

proof fn lemma_grows_trans(g: &UGraph, nodes: Set<usize>, k_stop: usize, min_size: usize, s0: Seq<Cut>, s1: Seq<Cut>, s2: Seq<Cut>)
    requires
        grows_by_bottlenecks(g, nodes, k_stop, min_size, s0, s1),
        grows_by_bottlenecks(g, nodes, k_stop, min_size, s1, s2),
    ensures
        grows_by_bottlenecks(g, nodes, k_stop, min_size, s0, s2),
{
    assert forall|i: int| s0.len() <= i < s2.len() implies #[trigger] bottleneck_within(g, nodes, s2[i], k_stop, min_size) by {
        if i < s1.len() {
            assert(s2[i] == s2.subrange(0, s1.len() as int)[i]);
            assert(bottleneck_within(g, nodes, s1[i], k_stop, min_size));
        }
    }
    assert(s2.subrange(0, s0.len() as int) =~= s2.subrange(0, s1.len() as int).subrange(0, s0.len() as int));
}

proof fn lemma_induced_len(edges: Seq<(usize, usize)>, nodes: Seq<usize>)
    ensures
        induced_edges(edges, nodes).len() <= edges.len(),
    decreases edges.len(),
{
    if edges.len() > 0 {
        lemma_induced_len(edges.drop_last(), nodes);
    }
}

/// A sequence without repeats has as many nodes as its set.
proof fn lemma_set_len(v: Seq<usize>)
    requires
        v.no_duplicates(),
    ensures
        v.to_set().finite(),
        v.to_set().len() == v.len(),
{
    v.unique_seq_to_set();
}

/// A sequence without repeats whose nodes lie in those of `nodes` but miss
/// one of them is shorter.
proof fn lemma_shorter(v: Seq<usize>, nodes: Seq<usize>, missing: usize)
    requires
        v.no_duplicates(),
        nodes.no_duplicates(),
        v.to_set().subset_of(nodes.to_set()),
        nodes.contains(missing),
        !v.contains(missing),
    ensures
        v.len() < nodes.len(),
{
    lemma_set_len(v);
    lemma_set_len(nodes);
    let rest = nodes.to_set().remove(missing);
    assert(v.to_set().subset_of(rest));
    vstd::set_lib::lemma_len_subset(v.to_set(), rest);
}

/// The side of a cut, as a set of nodes.
pub open spec fn side_of(c: Cut) -> Set<usize> {
    c.side_a@.to_set()
}

/// The cuts of the parts, one part after the other.
pub open spec fn part_cuts(parts: Seq<(Set<usize>, Seq<Cut>)>) -> Seq<Cut>
    decreases parts.len(),
{
    if parts.len() == 0 {
        seq![]
    } else {
        part_cuts(parts.drop_last()) + parts.last().1
    }
}

/// `parts` splits `nodes` into at least two nonempty parts with no edge of
/// `g` between two of them.
#[verifier::opaque]
pub open spec fn splits_into(g: &UGraph, nodes: Set<usize>, parts: Seq<(Set<usize>, Seq<Cut>)>) -> bool {
    &&& parts.len() >= 2
    &&& forall|i: int| 0 <= i < parts.len() ==> (#[trigger] parts[i]).0.subset_of(nodes) && exists|x: usize| parts[i].0.contains(x)
    &&& forall|i: int, j: int| 0 <= i < parts.len() && 0 <= j < parts.len() && i != j
        ==> (#[trigger] parts[i]).0.disjoint((#[trigger] parts[j]).0)
    &&& forall|x: usize| nodes.contains(x) ==> exists|i: int| 0 <= i < parts.len() && (#[trigger] parts[i]).0.contains(x)
    &&& forall|i: int, e: int| 0 <= i < parts.len() && 0 <= e < g.edges@.len() && nodes.contains(g.edges@[e].0) && nodes.contains(g.edges@[e].1)
        ==> ((#[trigger] parts[i]).0.contains((#[trigger] g.edges@[e]).0) <==> parts[i].0.contains(g.edges@[e].1))
}

/// The levels of splitting left for a part `s` of a set split with `fuel`
/// levels: the part's own size where that is smaller, else one fewer.
pub open spec fn sub_fuel(s: Set<usize>, fuel: nat) -> nat {
    if s.len() < fuel { s.len() } else { (fuel - 1) as nat }
}

/// `cuts` is how `nodes` is decomposed, with at most `fuel` levels of
/// splitting: nothing for fewer than two or `min_size` nodes; for nodes that
/// fall apart, the decompositions of the parts with no edge between them, in
/// turn; nothing when every cut is crossed by at least `k_stop` edges;
/// otherwise a cut of least size, then the decompositions of its side and of
/// the rest.
#[verifier::opaque]
pub open spec fn decomposes(g: &UGraph, nodes: Set<usize>, k_stop: usize, min_size: usize, cuts: Seq<Cut>, fuel: nat) -> bool
    decreases fuel,
{
    if nodes.len() < 2 || nodes.len() < min_size {
        cuts.len() == 0
    } else if fuel == 0 {
        false
    } else if !cuts_at_least(g, nodes, 1) {
        exists|parts: Seq<(Set<usize>, Seq<Cut>)>| #[trigger] splits_into(g, nodes, parts) && cuts == part_cuts(parts)
            && forall|i: int| 0 <= i < parts.len() ==> decomposes(g, (#[trigger] parts[i]).0, k_stop, min_size, parts[i].1, sub_fuel(parts[i].0, fuel))
    } else if cuts_at_least(g, nodes, k_stop as int) {
        cuts.len() == 0
    } else {
        &&& cuts.len() > 0
        &&& bottleneck(g, nodes, cuts[0], k_stop, min_size)
        &&& exists|j: int| 1 <= j <= cuts.len()
            && decomposes(g, side_of(cuts[0]), k_stop, min_size, #[trigger] cuts.subrange(1, j), sub_fuel(side_of(cuts[0]), fuel))
            && decomposes(g, nodes.difference(side_of(cuts[0])), k_stop, min_size, cuts.subrange(j, cuts.len() as int),
                sub_fuel(nodes.difference(side_of(cuts[0])), fuel))
    }
}

/// An edge with both ends in `active` and one end in `side` crosses it.
proof fn lemma_crossing_has(edges: Seq<(usize, usize)>, active: Set<usize>, side: Set<usize>, e: int)
    requires
        0 <= e < edges.len(),
        active.contains(edges[e].0),
        active.contains(edges[e].1),
        side.contains(edges[e].0) != side.contains(edges[e].1),
    ensures
        crossing(edges, active, side).len() > 0,
    decreases edges.len(),
{
    if e < edges.len() - 1 {
        assert(edges.drop_last()[e] == edges[e]);
        lemma_crossing_has(edges.drop_last(), active, side, e);
    }
}

/// A walk that starts inside `side` and ends outside it crosses it.
proof fn lemma_walk_crosses(g: &UGraph, p: Seq<usize>, side: Set<usize>)
    requires
        g.wf(),
        is_walk(g, p),
        p[0] < g.node_count,
        side.contains(p[0]),
        !side.contains(p.last()),
    ensures
        crossing(g.edges@, below(g.node_count as nat), side).len() > 0,
    decreases p.len(),
{
    assert(p.len() > 1);
    assert(step(g, p, 0));
    let e = choose|e: int| 0 <= e < g.edges@.len() && ((#[trigger] g.edges@[e]).0 == p[0] as int && g.edges@[e].1 == p[1] as int
        || g.edges@[e].0 == p[1] as int && g.edges@[e].1 == p[0] as int);
    assert(g.edges@[e].0 < g.node_count && g.edges@[e].1 < g.node_count);
    if side.contains(p[1]) {
        let q = p.skip(1);
        assert forall|i: int| 0 <= i < q.len() - 1 implies #[trigger] step(g, q, i) by {
            assert(step(g, p, i + 1));
        }
        lemma_walk_crosses(g, q, side);
    } else {
        lemma_crossing_has(g.edges@, below(g.node_count as nat), side, e);
    }
}

/// An edge of `edges` with both ends in `nodes` is, renamed, an edge of the
/// induced graph.
proof fn lemma_induced_has(edges: Seq<(usize, usize)>, nodes: Seq<usize>, e: int)
    requires
        0 <= e < edges.len(),
        nodes.contains(edges[e].0),
        nodes.contains(edges[e].1),
    ensures
        exists|k: int| 0 <= k < induced_edges(edges, nodes).len()
            && #[trigger] induced_edges(edges, nodes)[k] == (position(nodes, edges[e].0) as usize, position(nodes, edges[e].1) as usize),
    decreases edges.len(),
{
    let r = induced_edges(edges, nodes);
    if e < edges.len() - 1 {
        assert(edges.drop_last()[e] == edges[e]);
        lemma_induced_has(edges.drop_last(), nodes, e);
        let rest = induced_edges(edges.drop_last(), nodes);
        let k = choose|k: int| 0 <= k < rest.len()
            && #[trigger] rest[k] == (position(nodes, edges[e].0) as usize, position(nodes, edges[e].1) as usize);
        assert(r[k] == rest[k]);
    } else {
        assert(r[r.len() - 1] == (position(nodes, edges[e].0) as usize, position(nodes, edges[e].1) as usize));
    }
}

/// Adding a part adds its cuts at the end.
proof fn lemma_part_cuts_push(parts: Seq<(Set<usize>, Seq<Cut>)>, p: (Set<usize>, Seq<Cut>))
    ensures
        part_cuts(parts.push(p)) == part_cuts(parts) + p.1,
{
    assert(parts.push(p).drop_last() =~= parts);
}

/// A graph whose nodes fall apart into pieces has a cut crossed by no edge,
/// so its components are at least two.
proof fn lemma_two_components(sub: &UGraph, comps: Seq<Vec<usize>>, part: Set<usize>)
    requires
        sub.wf(),
        proper_part(part, below(sub.node_count as nat)),
        crossing(sub.edges@, below(sub.node_count as nat), part).len() == 0,
        forall|u: usize| u < sub.node_count ==> #[trigger] in_part(comps, u),
        forall|c: int, u: usize, v: usize| 0 <= c < comps.len() && #[trigger] comps[c]@.contains(u) && #[trigger] comps[c]@.contains(v)
            ==> walk_within(sub, u, v, sub.node_count as int),
    ensures
        comps.len() >= 2,
{
    let x = choose|x: usize| part.contains(x);
    let y = choose|y: usize| below(sub.node_count as nat).contains(y) && !part.contains(y);
    assert(in_part(comps, x));
    assert(in_part(comps, y));
    if comps.len() < 2 {
        let cx = choose|c: int| 0 <= c < comps.len() && (#[trigger] comps[c])@.contains(x);
        let cy = choose|c: int| 0 <= c < comps.len() && (#[trigger] comps[c])@.contains(y);
        assert(cx == cy);
        assert(walk_within(sub, x, y, sub.node_count as int));
        let p = choose|p: Seq<usize>| #[trigger] is_walk(sub, p) && p[0] == x && p.last() == y && p.len() <= sub.node_count + 1;
        lemma_walk_crosses(sub, p, part);
    }
}

/// The components of the graph induced by `nodes`, taken back to the nodes
/// of `g`, split the nodes of `nodes`.
proof fn lemma_components_split(g: &UGraph, nodes: Seq<usize>, sub: &UGraph, comps: Seq<Vec<usize>>, parts: Seq<(Set<usize>, Seq<Cut>)>)
    requires
        g.wf(),
        nodes.no_duplicates(),
        sub.node_count == nodes.len(),
        sub.edges@ == induced_edges(g.edges@, nodes),
        comps.len() >= 2,
        parts.len() == comps.len(),
        forall|i: int| 0 <= i < parts.len() ==> (#[trigger] parts[i]).0 == nodes_at(nodes, comps[i]@.to_set()),
        forall|c: int| 0 <= c < comps.len() ==> (#[trigger] comps[c])@.no_duplicates() && comps[c].len() > 0,
        forall|c: int, i: int| 0 <= c < comps.len() && 0 <= i < comps[c].len() ==> (#[trigger] comps[c]@[i]) < sub.node_count,
        forall|u: usize| u < sub.node_count ==> #[trigger] in_part(comps, u),
        forall|c1: int, c2: int, u: usize|
            0 <= c1 < comps.len() && 0 <= c2 < comps.len() && c1 != c2 && #[trigger] comps[c1]@.contains(u)
                ==> !(#[trigger] comps[c2]@.contains(u)),
        forall|c: int, e: int| 0 <= c < comps.len() && 0 <= e < sub.edges@.len()
            ==> (#[trigger] comps[c]@.contains(#[trigger] sub.edges@[e].0) <==> comps[c]@.contains(sub.edges@[e].1)),
    ensures
        splits_into(g, nodes.to_set(), parts),
{
    reveal(splits_into);
    let s = nodes.to_set();
    assert forall|i: int| 0 <= i < parts.len() implies (#[trigger] parts[i]).0.subset_of(s) && exists|x: usize| parts[i].0.contains(x) by {
        assert forall|u: usize| parts[i].0.contains(u) implies s.contains(u) by {
            let k = choose|k: usize| comps[i]@.to_set().contains(k) && k < nodes.len() && nodes[k as int] == u;
        }
        let k0 = comps[i]@[0];
        assert(comps[i]@.contains(k0));
        assert(comps[i]@.to_set().contains(k0));
        assert(parts[i].0.contains(nodes[k0 as int]));
    }
    assert forall|i: int, j: int| 0 <= i < parts.len() && 0 <= j < parts.len() && i != j
        implies (#[trigger] parts[i]).0.disjoint((#[trigger] parts[j]).0) by {
        assert forall|u: usize| parts[i].0.contains(u) implies !parts[j].0.contains(u) by {
            let k1 = choose|k: usize| comps[i]@.to_set().contains(k) && k < nodes.len() && nodes[k as int] == u;
            if parts[j].0.contains(u) {
                let k2 = choose|k: usize| comps[j]@.to_set().contains(k) && k < nodes.len() && nodes[k as int] == u;
                assert(k1 == k2);
                assert(comps[i]@.contains(k1));
            }
        }
    }
    assert forall|x: usize| s.contains(x) implies exists|i: int| 0 <= i < parts.len() && (#[trigger] parts[i]).0.contains(x) by {
        lemma_position_in(nodes, x);
        let k = position(nodes, x) as usize;
        assert(in_part(comps, k));
        let c = choose|c: int| 0 <= c < comps.len() && (#[trigger] comps[c])@.contains(k);
        assert(comps[c]@.to_set().contains(k));
        assert(parts[c].0.contains(x));
    }
    assert forall|i: int, e: int| 0 <= i < parts.len() && 0 <= e < g.edges@.len() && s.contains(g.edges@[e].0) && s.contains(g.edges@[e].1)
        implies ((#[trigger] parts[i]).0.contains((#[trigger] g.edges@[e]).0) <==> parts[i].0.contains(g.edges@[e].1)) by {
        let u = g.edges@[e].0;
        let v = g.edges@[e].1;
        lemma_position_in(nodes, u);
        lemma_position_in(nodes, v);
        let pu = position(nodes, u) as usize;
        let pv = position(nodes, v) as usize;
        lemma_induced_has(g.edges@, nodes, e);
        let k = choose|k: int| 0 <= k < induced_edges(g.edges@, nodes).len()
            && #[trigger] induced_edges(g.edges@, nodes)[k] == (pu, pv);
        assert(sub.edges@[k] == (pu, pv));
        assert(comps[i]@.contains(sub.edges@[k].0) <==> comps[i]@.contains(sub.edges@[k].1));
        assert(parts[i].0.contains(u) <==> comps[i]@.contains(pu)) by {
            if parts[i].0.contains(u) {
                let k1 = choose|k: usize| comps[i]@.to_set().contains(k) && k < nodes.len() && nodes[k as int] == u;
                lemma_position(nodes, k1 as int);
            }
            if comps[i]@.contains(pu) {
                assert(comps[i]@.to_set().contains(pu));
            }
        }
        assert(parts[i].0.contains(v) <==> comps[i]@.contains(pv)) by {
            if parts[i].0.contains(v) {
                let k1 = choose|k: usize| comps[i]@.to_set().contains(k) && k < nodes.len() && nodes[k as int] == v;
                lemma_position(nodes, k1 as int);
            }
            if comps[i]@.contains(pv) {
                assert(comps[i]@.to_set().contains(pv));
            }
        }
    }
}

/// A set too small to split, or with no small cut, is decomposed by no cut.
proof fn lemma_decomposes_none(g: &UGraph, nodes: Set<usize>, k_stop: usize, min_size: usize, fuel: nat)
    requires
        nodes.len() == fuel,
        fuel < 2 || fuel < min_size || (cuts_at_least(g, nodes, 1) && cuts_at_least(g, nodes, k_stop as int)),
    ensures
        decomposes(g, nodes, k_stop, min_size, Seq::<Cut>::empty(), fuel),
{
    reveal(decomposes);
}

/// A set that falls apart is decomposed by the decompositions of its parts.
proof fn lemma_decomposes_split(g: &UGraph, nodes: Set<usize>, k_stop: usize, min_size: usize, parts: Seq<(Set<usize>, Seq<Cut>)>, cuts: Seq<Cut>, fuel: nat)
    requires
        nodes.len() == fuel,
        fuel >= 2,
        fuel >= min_size,
        !cuts_at_least(g, nodes, 1),
        splits_into(g, nodes, parts),
        cuts == part_cuts(parts),
        forall|i: int| 0 <= i < parts.len() ==> (#[trigger] parts[i]).0.len() < fuel
            && decomposes(g, parts[i].0, k_stop, min_size, parts[i].1, parts[i].0.len()),
    ensures
        decomposes(g, nodes, k_stop, min_size, cuts, fuel),
{
    assert forall|i: int| 0 <= i < parts.len() implies decomposes(g, (#[trigger] parts[i]).0, k_stop, min_size, parts[i].1, sub_fuel(parts[i].0, fuel)) by {
        assert(sub_fuel(parts[i].0, fuel) == parts[i].0.len());
    }
    reveal_with_fuel(decomposes, 2);
}

/// A set with a small cut is decomposed by that cut followed by the
/// decompositions of its two sides.
proof fn lemma_decomposes_cut(g: &UGraph, nodes: Set<usize>, k_stop: usize, min_size: usize, cuts: Seq<Cut>, j: int, fuel: nat)
    requires
        nodes.len() == fuel,
        fuel >= 2,
        fuel >= min_size,
        cuts_at_least(g, nodes, 1),
        !cuts_at_least(g, nodes, k_stop as int),
        cuts.len() > 0,
        bottleneck(g, nodes, cuts[0], k_stop, min_size),
        1 <= j <= cuts.len(),
        side_of(cuts[0]).len() < fuel,
        nodes.difference(side_of(cuts[0])).len() < fuel,
        decomposes(g, side_of(cuts[0]), k_stop, min_size, cuts.subrange(1, j), side_of(cuts[0]).len()),
        decomposes(g, nodes.difference(side_of(cuts[0])), k_stop, min_size, cuts.subrange(j, cuts.len() as int),
            nodes.difference(side_of(cuts[0])).len()),
    ensures
        decomposes(g, nodes, k_stop, min_size, cuts, fuel),
{
    reveal_with_fuel(decomposes, 2);
    assert(sub_fuel(side_of(cuts[0]), fuel) == side_of(cuts[0]).len());
    assert(sub_fuel(nodes.difference(side_of(cuts[0])), fuel) == nodes.difference(side_of(cuts[0])).len());
    assert(decomposes(g, side_of(cuts[0]), k_stop, min_size, cuts.subrange(1, j), sub_fuel(side_of(cuts[0]), fuel)));
}

/// Two sides of cuts are nested or disjoint.
pub open spec fn nested_or_disjoint(a: Set<usize>, b: Set<usize>) -> bool {
    a.subset_of(b) || b.subset_of(a) || a.disjoint(b)
}

/// The sides of `cuts` lie in `w`, and any two of them are nested or
/// disjoint.
pub open spec fn laminar_within(cuts: Seq<Cut>, w: Set<usize>) -> bool {
    &&& forall|i: int| 0 <= i < cuts.len() ==> side_of(#[trigger] cuts[i]).subset_of(w)
    &&& forall|i: int, j: int| 0 <= i < j < cuts.len() ==> nested_or_disjoint(side_of(#[trigger] cuts[i]), side_of(#[trigger] cuts[j]))
}

/// The nodes of all the parts.
pub open spec fn union_of(parts: Seq<(Set<usize>, Seq<Cut>)>) -> Set<usize>
    decreases parts.len(),
{
    if parts.len() == 0 {
        Set::empty()
    } else {
        union_of(parts.drop_last()).union(parts.last().0)
    }
}

proof fn lemma_union_of(parts: Seq<(Set<usize>, Seq<Cut>)>, x: usize)
    requires
        union_of(parts).contains(x),
    ensures
        exists|i: int| 0 <= i < parts.len() && (#[trigger] parts[i]).0.contains(x),
    decreases parts.len(),
{
    if !parts.last().0.contains(x) {
        lemma_union_of(parts.drop_last(), x);
        let i = choose|i: int| 0 <= i < parts.drop_last().len() && (#[trigger] parts.drop_last()[i]).0.contains(x);
        assert(parts[i] == parts.drop_last()[i]);
    } else {
        assert(parts[parts.len() - 1] == parts.last());
    }
}

/// Cuts laminar within two disjoint sets, one after the other, are laminar
/// within their union.
proof fn lemma_laminar_concat(a: Seq<Cut>, wa: Set<usize>, b: Seq<Cut>, wb: Set<usize>)
    requires
        laminar_within(a, wa),
        laminar_within(b, wb),
        wa.disjoint(wb),
    ensures
        laminar_within(a + b, wa.union(wb)),
{
    let ab = a + b;
    assert forall|i: int| 0 <= i < ab.len() implies side_of(#[trigger] ab[i]).subset_of(wa.union(wb)) by {
        if i < a.len() {
            assert(ab[i] == a[i]);
        } else {
            assert(ab[i] == b[i - a.len()]);
        }
    }
    assert forall|i: int, j: int| 0 <= i < j < ab.len() implies nested_or_disjoint(side_of(#[trigger] ab[i]), side_of(#[trigger] ab[j])) by {
        if j < a.len() {
            assert(ab[i] == a[i] && ab[j] == a[j]);
        } else if i >= a.len() {
            assert(ab[i] == b[i - a.len()] && ab[j] == b[j - a.len()]);
        } else {
            assert(ab[i] == a[i] && ab[j] == b[j - a.len()]);
            assert(side_of(a[i]).subset_of(wa));
            assert(side_of(b[j - a.len()]).subset_of(wb));
            assert(side_of(ab[i]).disjoint(side_of(ab[j])));
        }
    }
}

/// The cuts of disjoint parts, each laminar within its part, are laminar
/// within the union of the parts.
proof fn lemma_part_cuts_laminar(parts: Seq<(Set<usize>, Seq<Cut>)>)
    requires
        forall|i: int| 0 <= i < parts.len() ==> laminar_within((#[trigger] parts[i]).1, parts[i].0),
        forall|i: int, j: int| 0 <= i < parts.len() && 0 <= j < parts.len() && i != j
            ==> (#[trigger] parts[i]).0.disjoint((#[trigger] parts[j]).0),
    ensures
        laminar_within(part_cuts(parts), union_of(parts)),
    decreases parts.len(),
{
    if parts.len() > 0 {
        let init = parts.drop_last();
        assert forall|i: int| 0 <= i < init.len() implies laminar_within((#[trigger] init[i]).1, init[i].0) by {
            assert(init[i] == parts[i]);
        }
        assert forall|i: int, j: int| 0 <= i < init.len() && 0 <= j < init.len() && i != j
            implies (#[trigger] init[i]).0.disjoint((#[trigger] init[j]).0) by {
            assert(init[i] == parts[i] && init[j] == parts[j]);
        }
        lemma_part_cuts_laminar(init);
        let last = parts.last();
        assert(parts[parts.len() - 1] == last);
        assert forall|x: usize| union_of(init).contains(x) implies !last.0.contains(x) by {
            lemma_union_of(init, x);
            let i = choose|i: int| 0 <= i < init.len() && (#[trigger] init[i]).0.contains(x);
            assert(init[i] == parts[i]);
            assert(parts[i].0.disjoint(parts[parts.len() - 1].0));
        }
        lemma_laminar_concat(part_cuts(init), union_of(init), last.1, last.0);
    }
}

/// A cut followed by cuts laminar within its side and cuts laminar within
/// the rest of `nodes` is laminar within `nodes`.
proof fn lemma_laminar_cut(cuts: Seq<Cut>, nodes: Set<usize>, j: int)
    requires
        cuts.len() > 0,
        1 <= j <= cuts.len(),
        side_of(cuts[0]).subset_of(nodes),
        laminar_within(cuts.subrange(1, j), side_of(cuts[0])),
        laminar_within(cuts.subrange(j, cuts.len() as int), nodes.difference(side_of(cuts[0]))),
    ensures
        laminar_within(cuts, nodes),
{
    let side = side_of(cuts[0]);
    let rest = nodes.difference(side);
    let a = cuts.subrange(1, j);
    let b = cuts.subrange(j, cuts.len() as int);
    lemma_laminar_concat(a, side, b, rest);
    assert forall|i: int| 0 <= i < cuts.len() implies side_of(#[trigger] cuts[i]).subset_of(nodes) by {
        if i > 0 {
            assert(cuts[i] == (a + b)[i - 1]);
        }
    }
    assert forall|i: int, k: int| 0 <= i < k < cuts.len() implies nested_or_disjoint(side_of(#[trigger] cuts[i]), side_of(#[trigger] cuts[k])) by {
        assert(cuts[k] == (a + b)[k - 1]);
        if i > 0 {
            assert(cuts[i] == (a + b)[i - 1]);
        } else if k < j {
            assert(cuts[k] == a[k - 1]);
            assert(side_of(cuts[k]).subset_of(side));
        } else {
            assert(cuts[k] == b[k - j]);
            assert(side_of(cuts[k]).subset_of(rest));
        }
    }
}

/// The cuts of the parts of a split of `nodes`, each laminar within its
/// part, are laminar within `nodes`.
proof fn lemma_laminar_split(g: &UGraph, nodes: Set<usize>, parts: Seq<(Set<usize>, Seq<Cut>)>)
    requires
        splits_into(g, nodes, parts),
        forall|i: int| 0 <= i < parts.len() ==> laminar_within((#[trigger] parts[i]).1, parts[i].0),
    ensures
        laminar_within(part_cuts(parts), nodes),
{
    reveal(splits_into);
    lemma_part_cuts_laminar(parts);
    assert forall|x: usize| union_of(parts).contains(x) implies nodes.contains(x) by {
        lemma_union_of(parts, x);
        let i = choose|i: int| 0 <= i < parts.len() && (#[trigger] parts[i]).0.contains(x);
        assert(parts[i].0.subset_of(nodes));
    }
}

/// What the decomposition of a set that falls apart is made of.
proof fn lemma_decomposes_split_elim(g: &UGraph, nodes: Set<usize>, k_stop: usize, min_size: usize, cuts: Seq<Cut>, fuel: nat)
    requires
        decomposes(g, nodes, k_stop, min_size, cuts, fuel),
        nodes.len() >= 2,
        nodes.len() >= min_size,
        !cuts_at_least(g, nodes, 1),
    ensures
        fuel > 0,
        exists|parts: Seq<(Set<usize>, Seq<Cut>)>| #[trigger] splits_into(g, nodes, parts) && cuts == part_cuts(parts)
            && forall|i: int| 0 <= i < parts.len() ==> decomposes(g, (#[trigger] parts[i]).0, k_stop, min_size, parts[i].1, sub_fuel(parts[i].0, fuel)),
{
    reveal(decomposes);
}

/// What the decomposition of a set with a small cut is made of.
proof fn lemma_decomposes_cut_elim(g: &UGraph, nodes: Set<usize>, k_stop: usize, min_size: usize, cuts: Seq<Cut>, fuel: nat)
    requires
        decomposes(g, nodes, k_stop, min_size, cuts, fuel),
        nodes.len() >= 2,
        nodes.len() >= min_size,
        cuts_at_least(g, nodes, 1),
        !cuts_at_least(g, nodes, k_stop as int),
    ensures
        fuel > 0,
        cuts.len() > 0,
        bottleneck(g, nodes, cuts[0], k_stop, min_size),
        exists|j: int| 1 <= j <= cuts.len()
            && decomposes(g, side_of(cuts[0]), k_stop, min_size, #[trigger] cuts.subrange(1, j), sub_fuel(side_of(cuts[0]), fuel))
            && decomposes(g, nodes.difference(side_of(cuts[0])), k_stop, min_size, cuts.subrange(j, cuts.len() as int),
                sub_fuel(nodes.difference(side_of(cuts[0])), fuel)),
{
    reveal(decomposes);
}

/// The decomposition of a set too small to split, or with no small cut,
/// is empty.
proof fn lemma_decomposes_none_elim(g: &UGraph, nodes: Set<usize>, k_stop: usize, min_size: usize, cuts: Seq<Cut>, fuel: nat)
    requires
        decomposes(g, nodes, k_stop, min_size, cuts, fuel),
        nodes.len() < 2 || nodes.len() < min_size || (cuts_at_least(g, nodes, 1) && cuts_at_least(g, nodes, k_stop as int)),
    ensures
        cuts.len() == 0,
{
    reveal(decomposes);
}

/// The decomposition of a set that falls apart is laminar within it.
proof fn lemma_laminar_split_case(g: &UGraph, nodes: Set<usize>, k_stop: usize, min_size: usize, cuts: Seq<Cut>, fuel: nat)
    requires
        decomposes(g, nodes, k_stop, min_size, cuts, fuel),
        nodes.len() >= 2,
        nodes.len() >= min_size,
        !cuts_at_least(g, nodes, 1),
    ensures
        laminar_within(cuts, nodes),
    decreases fuel, 0int,
{
    lemma_decomposes_split_elim(g, nodes, k_stop, min_size, cuts, fuel);
    let parts = choose|parts: Seq<(Set<usize>, Seq<Cut>)>| #[trigger] splits_into(g, nodes, parts) && cuts == part_cuts(parts)
        && forall|i: int| 0 <= i < parts.len() ==> decomposes(g, (#[trigger] parts[i]).0, k_stop, min_size, parts[i].1, sub_fuel(parts[i].0, fuel));
    assert forall|i: int| 0 <= i < parts.len() implies laminar_within((#[trigger] parts[i]).1, parts[i].0) by {
        lemma_decomposition_laminar(g, parts[i].0, k_stop, min_size, parts[i].1, sub_fuel(parts[i].0, fuel));
    }
    lemma_laminar_split(g, nodes, parts);
}

/// The decomposition of a set with a small cut is laminar within it.
proof fn lemma_laminar_cut_case(g: &UGraph, nodes: Set<usize>, k_stop: usize, min_size: usize, cuts: Seq<Cut>, fuel: nat)
    requires
        decomposes(g, nodes, k_stop, min_size, cuts, fuel),
        nodes.len() >= 2,
        nodes.len() >= min_size,
        cuts_at_least(g, nodes, 1),
        !cuts_at_least(g, nodes, k_stop as int),
    ensures
        laminar_within(cuts, nodes),
    decreases fuel, 0int,
{
    lemma_decomposes_cut_elim(g, nodes, k_stop, min_size, cuts, fuel);
    let j = choose|j: int| 1 <= j <= cuts.len()
        && decomposes(g, side_of(cuts[0]), k_stop, min_size, #[trigger] cuts.subrange(1, j), sub_fuel(side_of(cuts[0]), fuel))
        && decomposes(g, nodes.difference(side_of(cuts[0])), k_stop, min_size, cuts.subrange(j, cuts.len() as int),
            sub_fuel(nodes.difference(side_of(cuts[0])), fuel));
    lemma_decomposition_laminar(g, side_of(cuts[0]), k_stop, min_size, cuts.subrange(1, j), sub_fuel(side_of(cuts[0]), fuel));
    lemma_decomposition_laminar(g, nodes.difference(side_of(cuts[0])), k_stop, min_size, cuts.subrange(j, cuts.len() as int),
        sub_fuel(nodes.difference(side_of(cuts[0])), fuel));
    lemma_laminar_cut(cuts, nodes, j);
}

/// The decomposition of a set cuts it along sides that lie in the set and
/// are pairwise nested or disjoint: each later cut splits a side made by an
/// earlier one, or lies beside it.
pub proof fn lemma_decomposition_laminar(g: &UGraph, nodes: Set<usize>, k_stop: usize, min_size: usize, cuts: Seq<Cut>, fuel: nat)
    requires
        decomposes(g, nodes, k_stop, min_size, cuts, fuel),
    ensures
        laminar_within(cuts, nodes),
    decreases fuel, 1int,
{
    if nodes.len() < 2 || nodes.len() < min_size || (cuts_at_least(g, nodes, 1) && cuts_at_least(g, nodes, k_stop as int)) {
        lemma_decomposes_none_elim(g, nodes, k_stop, min_size, cuts, fuel);
    } else if !cuts_at_least(g, nodes, 1) {
        lemma_laminar_split_case(g, nodes, k_stop, min_size, cuts, fuel);
    } else {
        lemma_laminar_cut_case(g, nodes, k_stop, min_size, cuts, fuel);
    }
}

/// The subgraph of `g` induced by `nodes`: its nodes are the positions in
/// `nodes`, its edges those of `g` between two of them, renamed; beside it,
/// the node of `g` at each position.
fn induced_subgraph(g: &UGraph, nodes: &Vec<usize>) -> (r: (UGraph, Vec<usize>))
    requires
        g.wf(),
        forall|i: int| 0 <= i < nodes.len() ==> nodes@[i] < g.node_count,
    ensures
        r.0.node_count == nodes.len(),
        r.0.edges@ == induced_edges(g.edges@, nodes@),
        r.0.wf(),
        r.1@ == nodes@,
{
    let mut orig_to_sub: Vec<Option<usize>> = Vec::new();
    let mut k: usize = 0;
    while k < g.node_count
        invariant
            k <= g.node_count,
            orig_to_sub.len() == k,
            forall|u: int| 0 <= u < k ==> orig_to_sub@[u] is None,
        decreases g.node_count - k,
    {
        orig_to_sub.push(None);
        k = k + 1;
    }
    let mut sub_to_orig: Vec<usize> = Vec::new();
    let mut i: usize = 0;
    while i < nodes.len()
        invariant
            i <= nodes.len(),
            orig_to_sub.len() == g.node_count,
            sub_to_orig@ == nodes@.take(i as int),
            forall|i: int| 0 <= i < nodes.len() ==> nodes@[i] < g.node_count,
            forall|u: usize| u < g.node_count ==> (#[trigger] orig_to_sub@[u as int]) == if nodes@.take(i as int).contains(u) {
                Some(position(nodes@.take(i as int), u) as usize)
            } else {
                None
            },
        decreases nodes.len() - i,
    {
        let u = nodes[i];
        proof {
            let t = nodes@.take(i as int);
            let t1 = nodes@.take(i + 1);
            assert(t1.drop_last() == t);
            assert(t1.last() == u);
            assert forall|w: usize| t1.contains(w) <==> t.contains(w) || w == u by {
                if t1.contains(w) && w != u {
                    let j = choose|j: int| 0 <= j < t1.len() && t1[j] == w;
                    assert(t[j] == w);
                }
                if t.contains(w) {
                    let j = choose|j: int| 0 <= j < t.len() && t[j] == w;
                    assert(t1[j] == w);
                }
                if w == u {
                    assert(t1[i as int] == w);
                }
            }
        }
        orig_to_sub.set(u, Some(i));
        sub_to_orig.push(u);
        i = i + 1;
    }
    assert(nodes@.take(nodes.len() as int) == nodes@);
    let mut edges: Vec<(usize, usize)> = Vec::new();
    let mut e: usize = 0;
    while e < g.edges.len()
        invariant
            e <= g.edges.len(),
            g.wf(),
            orig_to_sub.len() == g.node_count,
            forall|u: usize| u < g.node_count ==> (#[trigger] orig_to_sub@[u as int]) == if nodes@.contains(u) {
                Some(position(nodes@, u) as usize)
            } else {
                None
            },
            edges@ == induced_edges(g.edges@.take(e as int), nodes@),
            forall|j: int| 0 <= j < edges.len() ==> (#[trigger] edges@[j]).0 < nodes.len() && edges@[j].1 < nodes.len(),
        decreases g.edges.len() - e,
    {
        let (u, v) = g.edges[e];
        proof {
            assert(g.edges@[e as int].0 < g.node_count);
            assert(g.edges@.take(e + 1).drop_last() == g.edges@.take(e as int));
            if nodes@.contains(u) {
                lemma_position_in(nodes@, u);
            }
            if nodes@.contains(v) {
                lemma_position_in(nodes@, v);
            }
        }
        match (orig_to_sub[u], orig_to_sub[v]) {
            (Some(su), Some(sv)) => {
                edges.push((su, sv));
            },
            _ => {},
        }
        e = e + 1;
    }
    assert(g.edges@.take(g.edges.len() as int) == g.edges@);
    (UGraph { node_count: nodes.len(), edges }, sub_to_orig)
}

/// The edges of `g`, in order, with both ends in `active_nodes` and exactly
/// one end in `side_a`.
fn cut_edges_in_original(g: &UGraph, active_nodes: &HashSet<usize>, side_a: &HashSet<usize>) -> (r: Vec<(usize, usize)>)
    ensures
        r@ == crossing(g.edges@, active_nodes@, side_a@),
{
    let mut cut: Vec<(usize, usize)> = Vec::new();
    let mut e: usize = 0;
    while e < g.edges.len()
        invariant
            e <= g.edges.len(),
            cut@ == crossing(g.edges@.take(e as int), active_nodes@, side_a@),
        decreases g.edges.len() - e,
    {
        let (u, v) = g.edges[e];
        proof {
            assert(g.edges@.take(e + 1).drop_last() == g.edges@.take(e as int));
        }
        if active_nodes.contains(&u) && active_nodes.contains(&v) {
            let ua = side_a.contains(&u);
            let va = side_a.contains(&v);
            if ua != va {
                cut.push((u, v));
            }
        }
        e = e + 1;
    }
    assert(g.edges@.take(g.edges.len() as int) == g.edges@);
    cut
}

/// The set of the nodes of `v`.
fn set_of(v: &Vec<usize>) -> (r: HashSet<usize>)
    ensures
        r@ == v@.to_set(),
{
    let mut s: HashSet<usize> = HashSet::new();
    let mut i: usize = 0;
    while i < v.len()
        invariant
            i <= v.len(),
            s@ == v@.take(i as int).to_set(),
        decreases v.len() - i,
    {
        s.insert(v[i]);
        proof {
            assert(v@.take(i + 1) == v@.take(i as int).push(v@[i as int]));
            let t = v@.take(i as int);
            let t1 = v@.take(i + 1);
            assert forall|w: usize| t1.contains(w) <==> t.contains(w) || w == v@[i as int] by {
                if t1.contains(w) && w != v@[i as int] {
                    let j = choose|j: int| 0 <= j < t1.len() && t1[j] == w;
                    assert(t[j] == w);
                }
                if t.contains(w) {
                    let j = choose|j: int| 0 <= j < t.len() && t[j] == w;
                    assert(t1[j] == w);
                }
                if w == v@[i as int] {
                    assert(t1[i as int] == w);
                }
            }
            assert(t1.to_set() =~= t.to_set().insert(v@[i as int]));
        }
        i = i + 1;
    }
    assert(v@.take(v.len() as int) == v@);
    s
}

/// The nodes of `nodes` at the positions `part`, in the order of `part`.
fn nodes_of(nodes: &Vec<usize>, part: &Vec<usize>) -> (r: Vec<usize>)
    requires
        forall|i: int| 0 <= i < part.len() ==> part@[i] < nodes.len(),
    ensures
        r.len() == part.len(),
        forall|i: int| 0 <= i < part.len() ==> r@[i] == nodes@[part@[i] as int],
{
    let mut r: Vec<usize> = Vec::new();
    let mut i: usize = 0;
    while i < part.len()
        invariant
            i <= part.len(),
            r.len() == i,
            forall|i: int| 0 <= i < part.len() ==> part@[i] < nodes.len(),
            forall|j: int| 0 <= j < i ==> r@[j] == nodes@[part@[j] as int],
        decreases part.len() - i,
    {
        r.push(nodes[part[i]]);
        i = i + 1;
    }
    r
}

/// The nodes at distinct positions of a sequence without repeats are
/// without repeats, and lie among its nodes.
proof fn lemma_nodes_of(nodes: Seq<usize>, part: Seq<usize>, r: Seq<usize>)
    requires
        nodes.no_duplicates(),
        part.no_duplicates(),
        forall|i: int| 0 <= i < part.len() ==> part[i] < nodes.len(),
        r.len() == part.len(),
        forall|i: int| 0 <= i < part.len() ==> r[i] == nodes[part[i] as int],
    ensures
        r.no_duplicates(),
        r.to_set().subset_of(nodes.to_set()),
        r.to_set() == nodes_at(nodes, part.to_set()),
{
    assert forall|i: int, j: int| 0 <= i < r.len() && 0 <= j < r.len() && i != j implies r[i] != r[j] by {
        assert(part[i] != part[j]);
    }
    assert forall|u: usize| r.to_set().contains(u) implies nodes.to_set().contains(u) by {
        let i = choose|i: int| 0 <= i < r.len() && r[i] == u;
        assert(nodes[part[i] as int] == u);
    }
    assert forall|u: usize| r.to_set().contains(u) <==> nodes_at(nodes, part.to_set()).contains(u) by {
        if r.to_set().contains(u) {
            let i = choose|i: int| 0 <= i < r.len() && r[i] == u;
            assert(part.to_set().contains(part[i]));
        }
        if nodes_at(nodes, part.to_set()).contains(u) {
            let k = choose|k: usize| part.to_set().contains(k) && k < nodes.len() && nodes[k as int] == u;
            let i = choose|i: int| 0 <= i < part.len() && part[i] == k;
            assert(r[i] == u);
        }
    }
    assert(r.to_set() =~= nodes_at(nodes, part.to_set()));
}

/// Splits the part `nodes` of `g` along cuts of least size, as long as
/// they are crossed by fewer than `k_stop` edges and the parts have at
/// least two and at least `min_size` nodes; a part that falls apart is
/// split into its connected components first.  Each cut found is added to
/// `out`, before the cuts of its two sides.
#[verifier::rlimit(30)]
fn decompose_rec(g: &UGraph, nodes: &Vec<usize>, k_stop: usize, min_size: usize, out: &mut Vec<Cut>)
    requires
        g.wf(),
        g.fits(),
        nodes@.no_duplicates(),
        nodes.len() <= g.node_count,
        forall|i: int| 0 <= i < nodes.len() ==> nodes@[i] < g.node_count,
    ensures
        grows_by_bottlenecks(g, nodes@.to_set(), k_stop, min_size, old(out)@, final(out)@),
        nodes.len() < 2 || nodes.len() < min_size ==> final(out)@ == old(out)@,
        nodes.len() >= 2 && nodes.len() >= min_size && cuts_at_least(g, nodes@.to_set(), 1)
            && cuts_at_least(g, nodes@.to_set(), k_stop as int) ==> final(out)@ == old(out)@,
        nodes.len() >= 2 && nodes.len() >= min_size && cuts_at_least(g, nodes@.to_set(), 1)
            && cut_below(g, nodes@.to_set(), k_stop as int) ==> final(out)@.len() > old(out)@.len()
                && bottleneck(g, nodes@.to_set(), final(out)@[old(out)@.len() as int], k_stop, min_size),
        decomposes(g, nodes@.to_set(), k_stop, min_size, final(out)@.skip(old(out)@.len() as int), nodes.len() as nat),
    decreases nodes.len(),
{
    let ghost out0 = out@;
    let ghost active = nodes@.to_set();
    proof {
        assert(out@.subrange(0, out@.len() as int) =~= out@);
        assert(out@.skip(out@.len() as int) =~= Seq::<Cut>::empty());
        lemma_set_len(nodes@);
    }
    if nodes.len() < 2 || nodes.len() < min_size {
        proof {
            lemma_decomposes_none(g, active, k_stop, min_size, nodes.len() as nat);
        }
        return;
    }
    let (sub, sub_to_orig) = induced_subgraph(g, nodes);
    proof {
        lemma_induced_len(g.edges@, nodes@);
        lemma_set_len(nodes@);
    }
    let res = min_cut(&sub);
    let (cut_value, part_sub) = match res {
        Some(p) => p,
        None => {
            proof {
                assert(sub.node_count >= 2);
            }
            return;
        },
    };
    let ghost part = part_sub@.to_set();
    let ghost side0 = nodes_at(nodes@, part);
    proof {
        assert forall|i: int| 0 <= i < part_sub.len() implies part_sub@[i] < nodes.len() by {
            assert(part.contains(part_sub@[i]));
        }
        lemma_positions_of_nodes_at(nodes@, part);
        lemma_crossing_induced(g.edges@, nodes@, side0);
        let x = choose|x: usize| part.contains(x);
        let y = choose|y: usize| below(nodes.len() as nat).contains(y) && !part.contains(y);
        assert(side0.contains(nodes@[x as int]));
        assert(active.contains(nodes@[y as int]));
        if side0.contains(nodes@[y as int]) {
            assert(positions_in(nodes@, side0).contains(y));
        }
        assert forall|u: usize| side0.contains(u) implies active.contains(u) by {
            let k = choose|k: usize| part.contains(k) && k < nodes.len() && nodes@[k as int] == u;
            assert(nodes@[k as int] == u);
        }
        assert(proper_part(side0, active));
        assert(crossing(g.edges@, active, side0).len() == cut_value);
        assert forall|s: Set<usize>| #[trigger] proper_part(s, active) implies crossing(g.edges@, active, s).len() >= cut_value by {
            lemma_positions_proper(nodes@, s);
            lemma_crossing_induced(g.edges@, nodes@, s);
        }
    }
    if cut_value == 0 {
        proof {
            assert(proper_part(side0, active));
            assert(!cuts_at_least(g, active, 1));
        }
        let comps = components(&sub);
        if comps.len() <= 1 {
            proof {
                lemma_two_components(&sub, comps@, part);
            }
            return;
        }
        let ghost mut parts: Seq<(Set<usize>, Seq<Cut>)> = seq![];
        let mut c: usize = 0;
        while c < comps.len()
            invariant
                g.wf(),
                g.fits(),
                nodes@.no_duplicates(),
                nodes.len() <= g.node_count,
                forall|i: int| 0 <= i < nodes.len() ==> nodes@[i] < g.node_count,
                sub_to_orig@ == nodes@,
                sub.node_count == nodes.len(),
                comps.len() > 1,
                forall|c: int| 0 <= c < comps.len() ==> (#[trigger] comps@[c])@.no_duplicates() && comps@[c].len() > 0,
                forall|c: int, i: int| 0 <= c < comps.len() && 0 <= i < comps@[c].len() ==> (#[trigger] comps@[c]@[i]) < sub.node_count,
                forall|c1: int, c2: int, u: usize|
                    0 <= c1 < comps.len() && 0 <= c2 < comps.len() && c1 != c2 && #[trigger] comps@[c1]@.contains(u)
                        ==> !(#[trigger] comps@[c2]@.contains(u)),
                active == nodes@.to_set(),
                grows_by_bottlenecks(g, active, k_stop, min_size, out0, out@),
                c <= comps.len(),
                parts.len() == c,
                forall|i: int| 0 <= i < c ==> (#[trigger] parts[i]).0 == nodes_at(nodes@, comps@[i]@.to_set())
                    && parts[i].0.len() < nodes.len()
                    && decomposes(g, parts[i].0, k_stop, min_size, parts[i].1, parts[i].0.len()),
                out@ == out0 + part_cuts(parts),
            decreases comps.len() - c,
        {
            let comp_sub = &comps[c];
            let comp_orig = nodes_of(&sub_to_orig, comp_sub);
            proof {
                lemma_nodes_of(nodes@, comp_sub@, comp_orig@);
                let other: int = if c == 0 { 1 } else { 0 };
                let w = comps@[other]@[0];
                assert(comps@[other]@.contains(w));
                assert(!comp_sub@.contains(w));
                let missing = nodes@[w as int];
                assert(nodes@.contains(missing));
                if comp_orig@.contains(missing) {
                    let i = choose|i: int| 0 <= i < comp_orig.len() && comp_orig@[i] == missing;
                    assert(nodes@[comp_sub@[i] as int] == nodes@[w as int]);
                    assert(comp_sub@[i] == w);
                }
                lemma_shorter(comp_orig@, nodes@, missing);
                assert forall|i: int| 0 <= i < comp_orig.len() implies comp_orig@[i] < g.node_count by {
                    assert(comp_sub@[i] < nodes.len());
                }
            }
            let ghost before = out@;
            decompose_rec(g, &comp_orig, k_stop, min_size, out);
            proof {
                lemma_grows_weaken(g, comp_orig@.to_set(), active, k_stop, min_size, before, out@);
                lemma_grows_trans(g, active, k_stop, min_size, out0, before, out@);
                lemma_set_len(comp_orig@);
                let newp = (comp_orig@.to_set(), out@.skip(before.len() as int));
                lemma_part_cuts_push(parts, newp);
                assert(out@ =~= before + newp.1);
                parts = parts.push(newp);
                assert(parts[c as int] == newp);
            }
            c = c + 1;
        }
        proof {
            lemma_components_split(g, nodes@, &sub, comps@, parts);
            assert(out@.skip(out0.len() as int) =~= part_cuts(parts));
            lemma_decomposes_split(g, active, k_stop, min_size, parts, out@.skip(out0.len() as int), nodes.len() as nat);
        }
        return;
    }
    if cut_value >= k_stop {
        proof {
            assert(cuts_at_least(g, active, 1));
            assert(cuts_at_least(g, active, k_stop as int));
            lemma_decomposes_none(g, active, k_stop, min_size, nodes.len() as nat);
        }
        return;
    }
    proof {
        assert forall|i: int| 0 <= i < part_sub.len() implies part_sub@[i] < nodes.len() by {
            assert(part.contains(part_sub@[i]));
        }
    }
    let side_a_vec = nodes_of(&sub_to_orig, &part_sub);
    let ghost side = side_a_vec@.to_set();
    proof {
        lemma_nodes_of(nodes@, part_sub@, side_a_vec@);
        lemma_positions_of_nodes_at(nodes@, part);
        lemma_crossing_induced(g.edges@, nodes@, side);
        let x = choose|x: usize| part.contains(x);
        let y = choose|y: usize| below(nodes.len() as nat).contains(y) && !part.contains(y);
        assert(side.contains(nodes@[x as int]));
        assert(active.contains(nodes@[y as int]));
        if side.contains(nodes@[y as int]) {
            assert(positions_in(nodes@, side).contains(y));
        }
        assert(proper_part(side, active));
        lemma_set_len(nodes@);
    }
    let side_a_set = set_of(&side_a_vec);
    let active_set = set_of(nodes);
    let cut_edges = cut_edges_in_original(g, &active_set, &side_a_set);
    let side_a_copy = side_a_vec.clone();
    proof {
        assert(side_a_copy@ =~= side_a_vec@);
    }
    let cut = Cut { side_a: side_a_copy, cut_edges };
    proof {
        assert(bottleneck(g, active, cut, k_stop, min_size));
    }
    out.push(cut);
    proof {
        assert(out@.subrange(0, out0.len() as int) =~= out0);
        assert(bottleneck_within(g, active, out@[out0.len() as int], k_stop, min_size));
        assert(grows_by_bottlenecks(g, active, k_stop, min_size, out0, out@));
    }
    let mut side_b: Vec<usize> = Vec::new();
    let mut i: usize = 0;
    while i < nodes.len()
        invariant
            i <= nodes.len(),
            nodes@.no_duplicates(),
            side_a_set@ == side,
            side.subset_of(active),
            active == nodes@.to_set(),
            side_b@.no_duplicates(),
            side_b@.to_set().subset_of(nodes@.take(i as int).to_set()),
            forall|j: int| 0 <= j < side_b.len() ==> !side.contains(#[trigger] side_b@[j]),
            side_b.len() <= i,
            (exists|j: int| 0 <= j < i && #[trigger] side.contains(nodes@[j])) ==> side_b.len() < i,
            forall|j: int| 0 <= j < i && !side.contains(#[trigger] nodes@[j]) ==> side_b@.contains(nodes@[j]),
            forall|j: int| 0 <= j < nodes.len() ==> nodes@[j] < g.node_count,
            forall|j: int| 0 <= j < side_b.len() ==> side_b@[j] < g.node_count,
        decreases nodes.len() - i,
    {
        let u = nodes[i];
        proof {
            assert forall|w: usize| nodes@.take(i as int).to_set().contains(w) implies nodes@.take(i + 1).to_set().contains(w) by {
                let j = choose|j: int| 0 <= j < i && nodes@.take(i as int)[j] == w;
                assert(nodes@.take(i + 1)[j] == w);
            }
            assert(nodes@.take(i + 1)[i as int] == u);
            assert(nodes@.take(i + 1).to_set().contains(u));
        }
        if !side_a_set.contains(&u) {
            proof {
                assert forall|j: int| 0 <= j < side_b.len() implies side_b@[j] != u by {
                    assert(nodes@.take(i as int).to_set().contains(side_b@[j]));
                    let k = choose|k: int| 0 <= k < i && nodes@.take(i as int)[k] == side_b@[j];
                    if side_b@[j] == u {
                        assert(nodes@[k] == nodes@[i as int]);
                    }
                }
            }
            let ghost old_b = side_b@;
            side_b.push(u);
            proof {
                assert forall|x: usize| old_b.contains(x) implies side_b@.contains(x) by {
                    let j = choose|j: int| 0 <= j < old_b.len() && old_b[j] == x;
                    assert(side_b@[j] == x);
                }
                assert(side_b@[side_b.len() - 1] == u);
                assert forall|w: usize| side_b@.to_set().contains(w) implies nodes@.take(i + 1).to_set().contains(w) by {
                    let j = choose|j: int| 0 <= j < side_b.len() && side_b@[j] == w;
                    if j < side_b.len() - 1 {
                        assert(old_b[j] == w);
                        assert(old_b.to_set().contains(w));
                    }
                }
            }
        } else {
            proof {
                assert(side_b@.to_set().subset_of(nodes@.take(i + 1).to_set()));
            }
        }
        i = i + 1;
    }
    proof {
        assert(nodes@.take(nodes.len() as int) == nodes@);
        let x = choose|x: usize| side.contains(x);
        assert(active.contains(x));
        let j = choose|j: int| 0 <= j < nodes.len() && nodes@[j] == x;
        assert(side.contains(nodes@[j]));
        assert(side_b.len() < nodes.len());
        assert forall|j: int| 0 <= j < side_a_vec.len() implies side_a_vec@[j] < g.node_count by {
            assert(part_sub@[j] < nodes.len());
        }
        lemma_set_len(side_a_vec@);
        lemma_set_len(nodes@);
        vstd::set_lib::lemma_len_subset(side, active);
        let y = choose|y: usize| active.contains(y) && !side.contains(y);
        vstd::set_lib::lemma_len_subset(side, active.remove(y));
    }
    let ghost mid = out@;
    decompose_rec(g, &side_a_vec, k_stop, min_size, out);
    proof {
        lemma_grows_weaken(g, side, active, k_stop, min_size, mid, out@);
        lemma_grows_trans(g, active, k_stop, min_size, out0, mid, out@);
    }
    let ghost mid2 = out@;
    proof {
        assert forall|x: usize| side_b@.to_set().contains(x) <==> active.difference(side).contains(x) by {
            if side_b@.to_set().contains(x) {
                let j = choose|j: int| 0 <= j < side_b.len() && side_b@[j] == x;
                assert(nodes@.take(nodes.len() as int).to_set().contains(x));
            }
            if active.difference(side).contains(x) {
                let j = choose|j: int| 0 <= j < nodes.len() && nodes@[j] == x;
                assert(!side.contains(nodes@[j]));
            }
        }
        assert(side_b@.to_set() =~= active.difference(side));
        lemma_set_len(side_b@);
    }
    decompose_rec(g, &side_b, k_stop, min_size, out);
    proof {
        lemma_grows_weaken(g, side_b@.to_set(), active, k_stop, min_size, mid2, out@);
        lemma_grows_trans(g, active, k_stop, min_size, out0, mid2, out@);
        assert(out@[out0.len() as int] == out@.subrange(0, mid.len() as int)[out0.len() as int]);
        assert(mid[out0.len() as int] == cut);
        let cuts = out@.skip(out0.len() as int);
        let j = mid2.len() - out0.len();
        assert(cuts[0] == cut);
        assert(side_of(cut) == side);
        assert(out@.subrange(0, mid2.len() as int) == mid2);
        assert(mid2.subrange(0, mid.len() as int) == mid);
        assert(cuts.subrange(1, j) =~= mid2.skip(mid.len() as int));
        assert(cuts.subrange(j, cuts.len() as int) =~= out@.skip(mid2.len() as int));
        assert(crossing(g.edges@, active, side).len() == cut_value);
        assert(!cuts_at_least(g, active, k_stop as int));
        assert(cuts_at_least(g, active, 1));
        lemma_decomposes_cut(g, active, k_stop, min_size, cuts, j, nodes.len() as nat);
    }
}

/// Decomposes `g` along cuts of least size, smallest first: a part that
/// falls apart is split into its connected components, a cut crossed by
/// fewer than `k_stop` edges is taken and both its sides are decomposed in
/// turn, and splitting stops at parts whose cuts are all crossed by at
/// least `k_stop` edges or that have fewer than `min_size` or two nodes.
/// The result is the decomposition that `decomposes` describes; its sides
/// are nested or disjoint (`lemma_decomposition_laminar`).
pub fn bottleneck_decompose(g: &UGraph, k_stop: usize, min_size: usize) -> (r: Vec<Cut>)
    requires
        g.wf(),
        g.fits(),
    ensures
        grows_by_bottlenecks(g, below(g.node_count as nat), k_stop, min_size, seq![], r@),
        g.node_count < 2 || g.node_count < min_size ==> r.len() == 0,
        g.node_count >= 2 && g.node_count >= min_size && cuts_at_least(g, below(g.node_count as nat), 1)
            && cuts_at_least(g, below(g.node_count as nat), k_stop as int) ==> r.len() == 0,
        g.node_count >= 2 && g.node_count >= min_size && cuts_at_least(g, below(g.node_count as nat), 1)
            && cut_below(g, below(g.node_count as nat), k_stop as int) ==> r.len() > 0
                && bottleneck(g, below(g.node_count as nat), r@[0], k_stop, min_size),
        decomposes(g, below(g.node_count as nat), k_stop, min_size, r@, g.node_count as nat),
{
    let mut all_nodes: Vec<usize> = Vec::new();
    let mut i: usize = 0;
    while i < g.node_count
        invariant
            i <= g.node_count,
            all_nodes.len() == i,
            forall|j: int| 0 <= j < i ==> all_nodes@[j] == j,
        decreases g.node_count - i,
    {
        all_nodes.push(i);
        i = i + 1;
    }
    proof {
        assert(all_nodes@.to_set() =~= below(g.node_count as nat)) by {
            assert forall|u: usize| below(g.node_count as nat).contains(u) implies all_nodes@.to_set().contains(u) by {
                assert(all_nodes@[u as int] == u);
            }
        }
    }
    let mut out: Vec<Cut> = Vec::new();
    decompose_rec(g, &all_nodes, k_stop, min_size, &mut out);
    proof {
        assert(out@.skip(0) =~= out@);
    }
    out
}

/// `a` and `b` are joined by one of the first `m` edges of `g`.
pub open spec fn adjacent_upto(g: &UGraph, a: int, b: int, m: int) -> bool {
    exists|e: int| 0 <= e < m && ((#[trigger] g.edges@[e]).0 == a && g.edges@[e].1 == b
        || g.edges@[e].0 == b && g.edges@[e].1 == a)
}

/// The neighbours of each node of `g`: `v` is among those of `u` exactly
/// when an edge joins them.
fn adjacency(g: &UGraph) -> (adj: Vec<Vec<usize>>)
    requires
        g.wf(),
    ensures
        adj.len() == g.node_count,
        forall|u: int, k: int| 0 <= u < adj.len() && 0 <= k < adj@[u].len() ==> (#[trigger] adj@[u]@[k]) < g.node_count,
        forall|u: usize, v: usize| #![trigger adj@[u as int]@.contains(v)] #![trigger g.adjacent(u as int, v as int)]
            u < g.node_count ==> (adj@[u as int]@.contains(v) <==> g.adjacent(u as int, v as int)),
{
    let mut adj: Vec<Vec<usize>> = Vec::new();
    let mut i: usize = 0;
    while i < g.node_count
        invariant
            i <= g.node_count,
            adj.len() == i,
            forall|u: int| 0 <= u < i ==> (#[trigger] adj@[u])@.len() == 0,
        decreases g.node_count - i,
    {
        adj.push(Vec::new());
        i = i + 1;
    }
    let mut e: usize = 0;
    while e < g.edges.len()
        invariant
            e <= g.edges.len(),
            g.wf(),
            adj.len() == g.node_count,
            forall|u: int, k: int| 0 <= u < adj.len() && 0 <= k < adj@[u].len() ==> (#[trigger] adj@[u]@[k]) < g.node_count,
            forall|u: usize, v: usize| #![trigger adj@[u as int]@.contains(v)]
                u < g.node_count ==> (adj@[u as int]@.contains(v) <==> adjacent_upto(g, u as int, v as int, e as int)),
        decreases g.edges.len() - e,
    {
        let (a, b) = g.edges[e];
        proof {
            assert(g.edges@[e as int].0 < g.node_count && g.edges@[e as int].1 < g.node_count);
        }
        let ghost adj0 = adj@;
        adj[a].push(b);
        let ghost adj1 = adj@;
        adj[b].push(a);
        proof {
            assert forall|u: int, k: int| 0 <= u < adj.len() && 0 <= k < adj@[u].len() implies (#[trigger] adj@[u]@[k]) < g.node_count by {
                if u == b as int && k == adj@[u].len() - 1 {
                } else if u == b as int {
                    assert(adj@[u]@[k] == adj1[u]@[k]);
                    if u == a as int && k == adj1[u].len() - 1 {
                    } else if u == a as int {
                        assert(adj1[u]@[k] == adj0[u]@[k]);
                    }
                } else if u == a as int {
                    if k == adj1[u].len() - 1 {
                    } else {
                        assert(adj1[u]@[k] == adj0[u]@[k]);
                    }
                }
            }
            assert forall|u: usize, v: usize| #![trigger adj@[u as int]@.contains(v)]
                u < g.node_count implies (adj@[u as int]@.contains(v) <==> adjacent_upto(g, u as int, v as int, e + 1)) by {
                let ui = u as int;
                let now_in = (ui == a as int && v == b) || (ui == b as int && v == a);
                assert(adj0[ui]@.contains(v) || now_in ==> adj@[ui]@.contains(v)) by {
                    if adj0[ui]@.contains(v) {
                        let k = choose|k: int| 0 <= k < adj0[ui]@.len() && adj0[ui]@[k] == v;
                        assert(adj1[ui]@[k] == v);
                        assert(adj@[ui]@[k] == v);
                    }
                    if ui == a as int && v == b {
                        assert(adj1[ui]@[adj1[ui]@.len() - 1] == v);
                        if ui == b as int {
                            assert(adj@[ui]@[adj1[ui]@.len() - 1] == v);
                        }
                    }
                    if ui == b as int && v == a {
                        assert(adj@[ui]@[adj@[ui]@.len() - 1] == v);
                    }
                }
                assert(adj@[ui]@.contains(v) ==> adj0[ui]@.contains(v) || now_in) by {
                    if adj@[ui]@.contains(v) && !now_in {
                        let k = choose|k: int| 0 <= k < adj@[ui]@.len() && adj@[ui]@[k] == v;
                        if ui == b as int {
                            assert(k < adj1[ui]@.len());
                            assert(adj1[ui]@[k] == v);
                        } else {
                            assert(adj1[ui]@[k] == v);
                        }
                        if ui == a as int {
                            assert(adj0[ui]@[k] == v);
                        } else {
                            assert(adj0[ui]@[k] == v);
                        }
                    }
                }
                if adjacent_upto(g, ui, v as int, e + 1) && !now_in {
                    let j = choose|j: int| 0 <= j < e + 1 && ((#[trigger] g.edges@[j]).0 == ui && g.edges@[j].1 == v as int
                        || g.edges@[j].0 == v as int && g.edges@[j].1 == ui);
                    assert(j < e);
                    assert(adjacent_upto(g, ui, v as int, e as int));
                }
                if adjacent_upto(g, ui, v as int, e as int) {
                    let j = choose|j: int| 0 <= j < e && ((#[trigger] g.edges@[j]).0 == ui && g.edges@[j].1 == v as int
                        || g.edges@[j].0 == v as int && g.edges@[j].1 == ui);
                    assert(adjacent_upto(g, ui, v as int, e + 1));
                }
                if now_in {
                    assert(adjacent_upto(g, ui, v as int, e + 1));
                }
            }
        }
        e = e + 1;
    }
    adj
}

/// The distance recorded for `v`, or -1 where none is.
pub open spec fn dist(d: Seq<Option<usize>>, v: int) -> int {
    match d[v] {
        Some(k) => k as int,
        None => -1,
    }
}

/// Following `pred` back from `v` for `k` steps, in the forward order.
pub open spec fn pred_walk(pred: Seq<Option<usize>>, v: usize, k: nat) -> Seq<usize>
    decreases k,
{
    if k == 0 {
        seq![v]
    } else {
        pred_walk(pred, pred[v as int]->0, (k - 1) as nat).push(v)
    }
}

/// Every node with a distance but `start` has a predecessor, joined to it
/// and one step nearer.
pub open spec fn pred_ok(g: &UGraph, start: usize, d: Seq<Option<usize>>, pred: Seq<Option<usize>>) -> bool {
    &&& d.len() == g.node_count
    &&& pred.len() == g.node_count
    &&& start < g.node_count
    &&& d[start as int] == Some(0usize)
    &&& forall|v: int| 0 <= v < g.node_count && (#[trigger] d[v]) is Some && v != start ==> {
        &&& dist(d, v) >= 1
        &&& pred[v] is Some
        &&& pred[v]->0 < g.node_count
        &&& dist(d, pred[v]->0 as int) == dist(d, v) - 1
        &&& g.adjacent(pred[v]->0 as int, v)
    }
}

/// Every node next to a node `u` with a distance has a distance at most one
/// more.
pub open spec fn closed(adj: Seq<Vec<usize>>, d: Seq<Option<usize>>, u: int) -> bool {
    forall|k: int| 0 <= k < adj[u]@.len() ==> #[trigger] d[adj[u]@[k] as int] is Some
        && dist(d, adj[u]@[k] as int) <= dist(d, u) + 1
}

proof fn lemma_pred_walk(g: &UGraph, start: usize, d: Seq<Option<usize>>, pred: Seq<Option<usize>>, v: usize)
    requires
        pred_ok(g, start, d, pred),
        v < g.node_count,
        d[v as int] is Some,
    ensures
        is_walk(g, pred_walk(pred, v, dist(d, v as int) as nat)),
        pred_walk(pred, v, dist(d, v as int) as nat)[0] == start,
        pred_walk(pred, v, dist(d, v as int) as nat).last() == v,
        pred_walk(pred, v, dist(d, v as int) as nat).len() == dist(d, v as int) + 1,
    decreases dist(d, v as int),
{
    let k = dist(d, v as int);
    if k == 0 {
        if v != start {
            assert(d[v as int] is Some);
        }
    } else {
        assert(v != start);
        let p = pred[v as int]->0;
        lemma_pred_walk(g, start, d, pred, p);
        let w = pred_walk(pred, p, (k - 1) as nat);
        let w2 = pred_walk(pred, v, k as nat);
        assert(w2 == w.push(v));
        assert forall|i: int| 0 <= i < w2.len() - 1 implies #[trigger] step(g, w2, i) by {
            if i < w2.len() - 2 {
                assert(step(g, w, i));
            } else {
                assert(w2[i] == p);
            }
        }
    }
}

/// Along a walk from `start`, distances that are closed grow by at most one
/// a step.
proof fn lemma_walk_bound(g: &UGraph, adj: Seq<Vec<usize>>, start: usize, d: Seq<Option<usize>>, p: Seq<usize>)
    requires
        g.wf(),
        adj.len() == g.node_count,
        forall|u: usize, v: usize| #![trigger adj[u as int]@.contains(v)] #![trigger g.adjacent(u as int, v as int)]
            u < g.node_count ==> (adj[u as int]@.contains(v) <==> g.adjacent(u as int, v as int)),
        d.len() == g.node_count,
        start < g.node_count,
        d[start as int] is Some,
        dist(d, start as int) == 0,
        forall|u: int| 0 <= u < g.node_count && d[u] is Some ==> #[trigger] closed(adj, d, u),
        is_walk(g, p),
        p[0] == start,
    ensures
        p.last() < g.node_count,
        d[p.last() as int] is Some,
        dist(d, p.last() as int) <= p.len() - 1,
    decreases p.len(),
{
    if p.len() > 1 {
        let q = p.drop_last();
        assert forall|i: int| 0 <= i < q.len() - 1 implies #[trigger] step(g, q, i) by {
            assert(step(g, p, i));
        }
        lemma_walk_bound(g, adj, start, d, q);
        let u = q.last();
        let v = p.last();
        assert(step(g, p, p.len() - 2));
        assert(g.adjacent(u as int, v as int));
        let e = choose|e: int| 0 <= e < g.edges@.len() && ((#[trigger] g.edges@[e]).0 == u as int && g.edges@[e].1 == v as int
            || g.edges@[e].0 == v as int && g.edges@[e].1 == u as int);
        assert(v < g.node_count);
        assert(adj[u as int]@.contains(v));
        let k = choose|k: int| 0 <= k < adj[u as int]@.len() && adj[u as int]@[k] == v;
        assert(closed(adj, d, u as int));
        assert(d[adj[u as int]@[k] as int] is Some);
    }
}

/// `p` is a walk of `g` and no walk between its ends is shorter.
pub open spec fn shortest_walk(g: &UGraph, p: Seq<usize>) -> bool {
    &&& is_walk(g, p)
    &&& forall|q: Seq<usize>| #[trigger] is_walk(g, q) && q[0] == p[0] && q.last() == p.last() ==> q.len() >= p.len()
}

/// A longest among the shortest paths from `start`: a shortest walk from
/// `start` to the last of the nodes farthest from it, found by a search in
/// breadth.
fn longest_shortest_path(g: &UGraph, start: usize) -> (r: Vec<usize>)
    requires
        g.wf(),
        g.fits(),
        start < g.node_count,
    ensures
        shortest_walk(g, r@),
        r@[0] == start,
        forall|v: usize, k: int| #[trigger] walk_within(g, start, v, k) ==> walk_within(g, start, v, r.len() - 1),
        forall|v: usize, k: int| v > r@.last() && #[trigger] walk_within(g, start, v, k) ==> walk_within(g, start, v, r.len() - 2),
{
    let n = g.node_count;
    let adj = adjacency(g);
    let mut predecessor: Vec<Option<usize>> = Vec::new();
    let mut distance: Vec<Option<usize>> = Vec::new();
    let mut visited: Vec<bool> = Vec::new();
    let mut i: usize = 0;
    while i < n
        invariant
            i <= n,
            n == g.node_count,
            predecessor.len() == i,
            distance.len() == i,
            visited.len() == i,
            forall|u: int| 0 <= u < i ==> (#[trigger] distance@[u]) is None,
            forall|u: int| 0 <= u < i ==> (#[trigger] predecessor@[u]) is None,
            forall|u: int| 0 <= u < i ==> !(#[trigger] visited@[u]),
        decreases n - i,
    {
        let ghost (p0, d0, v0) = (predecessor@, distance@, visited@);
        predecessor.push(None);
        distance.push(None);
        visited.push(false);
        proof {
            assert forall|u: int| 0 <= u < i + 1 implies (#[trigger] distance@[u]) is None by {
                if u < i {
                    assert(distance@[u] == d0[u]);
                }
            }
            assert forall|u: int| 0 <= u < i + 1 implies (#[trigger] predecessor@[u]) is None by {
                if u < i {
                    assert(predecessor@[u] == p0[u]);
                }
            }
            assert forall|u: int| 0 <= u < i + 1 implies !(#[trigger] visited@[u]) by {
                if u < i {
                    assert(visited@[u] == v0[u]);
                }
            }
        }
        i = i + 1;
    }
    let ghost dinit = distance@;
    distance.set(start, Some(0));
    proof {
        assert forall|v: int| 0 <= v < n && v != start implies (#[trigger] distance@[v]) is None by {
            assert(distance@[v] == dinit[v]);
        }
        assert forall|v: int| 0 <= v < n && (#[trigger] distance@[v]) is Some implies dist(distance@, v) <= 0 by {
            if v != start {
                assert(distance@[v] == dinit[v]);
            }
        }
    }
    let mut worklist: std::collections::VecDeque<usize> = std::collections::VecDeque::new();
    worklist.push_back(start);
    proof {
        assert(worklist@[0] == start);
        assert forall|v: int| 0 <= v < n && (#[trigger] distance@[v]) is Some implies visited@[v] || worklist@.contains(v as usize) by {
            if v != start {
                assert(distance@[v] is None);
            }
        }
    }
    let ghost mut order: Seq<usize> = seq![];
    let ghost mut cur: int = 0;
    while worklist.len() > 0
        invariant
            g.wf(),
            g.fits(),
            n == g.node_count,
            adj.len() == n,
            forall|u: int, k: int| 0 <= u < adj.len() && 0 <= k < adj@[u].len() ==> (#[trigger] adj@[u]@[k]) < n,
            forall|u: usize, v: usize| #![trigger adj@[u as int]@.contains(v)] #![trigger g.adjacent(u as int, v as int)]
                u < n ==> (adj@[u as int]@.contains(v) <==> g.adjacent(u as int, v as int)),
            visited.len() == n,
            pred_ok(g, start, distance@, predecessor@),
            forall|v: int| 0 <= v < n && (#[trigger] distance@[v]) is Some ==> dist(distance@, v) <= order.len(),
            forall|v: int| 0 <= v < n ==> (#[trigger] visited@[v] <==> order.contains(v as usize)),
            order.no_duplicates(),
            forall|j: int| 0 <= j < order.len() ==> (#[trigger] order[j]) < n,
            order.len() <= n,
            forall|j: int| 0 <= j < worklist@.len() ==> (#[trigger] worklist@[j]) < n && distance@[worklist@[j] as int] is Some
                && cur <= dist(distance@, worklist@[j] as int) <= cur + 1,
            forall|i: int, j: int| 0 <= i < j < worklist@.len() ==> dist(distance@, #[trigger] worklist@[i] as int) <= dist(distance@, #[trigger] worklist@[j] as int),
            forall|v: int| 0 <= v < n && #[trigger] visited@[v] ==> distance@[v] is Some && dist(distance@, v) <= cur && closed(adj@, distance@, v),
            forall|v: int| 0 <= v < n && (#[trigger] distance@[v]) is Some ==> visited@[v] || worklist@.contains(v as usize),
            cur >= 0,
        decreases n - order.len(), worklist@.len(),
    {
        let ghost q0 = worklist@;
        let node = worklist.pop_front().unwrap();
        if !visited[node] {
            proof {
                cur = dist(distance@, node as int);
                assert forall|j: int| 0 <= j < worklist@.len() implies dist(distance@, node as int) <= dist(distance@, #[trigger] worklist@[j] as int) by {
                    assert(worklist@[j] == q0[j + 1]);
                    assert(q0[0] == node);
                }
                if order.len() == n {
                    lemma_set_len(order);
                    assert forall|u: usize| order.to_set().contains(u) implies below(n as nat).contains(u) by {
                        let j = choose|j: int| 0 <= j < order.len() && order[j] == u;
                    }
                    lemma_below_len(n as nat);
                    vstd::set_lib::lemma_len_subset(order.to_set(), below(n as nat).remove(node));
                    assert(order.to_set().subset_of(below(n as nat).remove(node)));
                }
                let old_order = order;
                order = order.push(node);
                assert forall|a: int, b: int| 0 <= a < b < order.len() implies order[a] != order[b] by {
                    if b == order.len() - 1 {
                        assert(old_order.contains(order[a]));
                    } else {
                        assert(old_order[a] == order[a] && old_order[b] == order[b]);
                    }
                }
                assert forall|v: usize| order.contains(v) <==> old_order.contains(v) || v == node by {
                    if order.contains(v) && v != node {
                        let j = choose|j: int| 0 <= j < order.len() && order[j] == v;
                        assert(old_order[j] == v);
                    }
                    if old_order.contains(v) {
                        let j = choose|j: int| 0 <= j < old_order.len() && old_order[j] == v;
                        assert(order[j] == v);
                    }
                    if v == node {
                        assert(order[order.len() - 1] == v);
                    }
                }
            }
            visited.set(node, true);
            proof {
                assert forall|v: int| 0 <= v < n && (#[trigger] distance@[v]) is Some implies visited@[v] || worklist@.contains(v as usize) by {
                    if !visited@[v] {
                        let jj = choose|jj: int| 0 <= jj < q0.len() && q0[jj] == v as usize;
                        assert(jj != 0);
                        assert(worklist@[jj - 1] == v as usize);
                    }
                }
            }
            let d = distance[node].unwrap();
            let nbrs = &adj[node];
            let mut j: usize = 0;
            while j < nbrs.len()
                invariant
                    g.wf(),
                    g.fits(),
                    n == g.node_count,
                    adj.len() == n,
                    nbrs == adj@[node as int],
                    node < n,
                    forall|u: usize, v: usize| #![trigger adj@[u as int]@.contains(v)] #![trigger g.adjacent(u as int, v as int)]
                        u < n ==> (adj@[u as int]@.contains(v) <==> g.adjacent(u as int, v as int)),
                    j <= nbrs.len(),
                    forall|u: int, k: int| 0 <= u < adj.len() && 0 <= k < adj@[u].len() ==> (#[trigger] adj@[u]@[k]) < n,
                    visited.len() == n,
                    visited@[node as int],
                    distance@[node as int] == Some(d),
                    cur == d,
                    d <= order.len() - 1,
                    order.len() <= n,
                    pred_ok(g, start, distance@, predecessor@),
                    forall|v: int| 0 <= v < n && (#[trigger] distance@[v]) is Some ==> dist(distance@, v) <= order.len(),
                    forall|k: int| 0 <= k < j ==> #[trigger] distance@[nbrs@[k] as int] is Some
                        && dist(distance@, nbrs@[k] as int) <= d + 1,
                    forall|jj: int| 0 <= jj < worklist@.len() ==> (#[trigger] worklist@[jj]) < n && distance@[worklist@[jj] as int] is Some
                        && cur <= dist(distance@, worklist@[jj] as int) <= cur + 1,
                    forall|i: int, jj: int| 0 <= i < jj < worklist@.len() ==> dist(distance@, #[trigger] worklist@[i] as int) <= dist(distance@, #[trigger] worklist@[jj] as int),
                    forall|v: int| 0 <= v < n && #[trigger] visited@[v] ==> distance@[v] is Some && dist(distance@, v) <= cur
                        && (v != node ==> closed(adj@, distance@, v)),
                    forall|v: int| 0 <= v < n && (#[trigger] distance@[v]) is Some ==> visited@[v] || worklist@.contains(v as usize),
                decreases nbrs.len() - j,
            {
                let next = nbrs[j];
                proof {
                    assert(adj@[node as int]@[j as int] < n);
                }
                let skip = match distance[next] {
                    Some(d_old) => d_old < d + 1,
                    None => false,
                };
                if !skip {
                    let ghost d0 = distance@;
                    let ghost q1 = worklist@;
                    proof {
                        if distance@[next as int] is Some {
                            if visited@[next as int] {
                                assert(dist(distance@, next as int) <= d);
                            } else {
                                let jj = choose|jj: int| 0 <= jj < worklist@.len() && worklist@[jj] == next;
                                assert(dist(distance@, worklist@[jj] as int) <= cur + 1);
                            }
                            assert(dist(distance@, next as int) == d + 1);
                        }
                        assert(next != start);
                        assert(next != node);
                        assert(adj@[node as int]@[j as int] == next);
                        assert(adj@[node as int]@.contains(next));
                        assert(g.adjacent(node as int, next as int));
                    }
                    let ghost p0 = predecessor@;
                    distance.set(next, Some(d + 1));
                    predecessor.set(next, Some(node));
                    worklist.push_back(next);
                    proof {
                        assert forall|v: int| 0 <= v < g.node_count && (#[trigger] distance@[v]) is Some && v != start implies {
                            &&& dist(distance@, v) >= 1
                            &&& predecessor@[v] is Some
                            &&& predecessor@[v]->0 < g.node_count
                            &&& dist(distance@, predecessor@[v]->0 as int) == dist(distance@, v) - 1
                            &&& g.adjacent(predecessor@[v]->0 as int, v)
                        } by {
                            if v != next as int {
                                assert(distance@[v] == d0[v]);
                                assert(d0[v] is Some);
                                assert(predecessor@[v] == p0[v]);
                                let pv = p0[v]->0;
                                assert(dist(d0, pv as int) == dist(d0, v) - 1);
                                if pv == next {
                                    assert(d0[pv as int] is Some);
                                    assert(dist(distance@, pv as int) == dist(d0, pv as int));
                                } else {
                                    assert(distance@[pv as int] == d0[pv as int]);
                                }
                            } else {
                                assert(distance@[node as int] == d0[node as int]);
                            }
                        }
                        assert(pred_ok(g, start, distance@, predecessor@));
                        assert forall|v: int| 0 <= v < n && #[trigger] visited@[v] && v != node implies closed(adj@, distance@, v) by {
                            assert(closed(adj@, d0, v));
                            assert forall|k: int| 0 <= k < adj@[v]@.len() implies #[trigger] distance@[adj@[v]@[k] as int] is Some
                                && dist(distance@, adj@[v]@[k] as int) <= dist(distance@, v) + 1 by {
                                assert(d0[adj@[v]@[k] as int] is Some);
                            }
                        }
                        assert forall|i: int, jj: int| 0 <= i < jj < worklist@.len() implies dist(distance@, #[trigger] worklist@[i] as int)
                            <= dist(distance@, #[trigger] worklist@[jj] as int) by {
                            if jj < q1.len() {
                                assert(worklist@[i] == q1[i] && worklist@[jj] == q1[jj]);
                            } else {
                                assert(worklist@[i] == q1[i]);
                            }
                        }
                        assert forall|v: int| 0 <= v < n && (#[trigger] distance@[v]) is Some implies visited@[v] || worklist@.contains(v as usize) by {
                            if v == next as int {
                                assert(worklist@[worklist@.len() - 1] == next);
                            } else if !visited@[v] {
                                assert(d0[v] is Some);
                                let jj = choose|jj: int| 0 <= jj < q1.len() && q1[jj] == v as usize;
                                assert(worklist@[jj] == v as usize);
                            }
                        }
                    }
                }
                j = j + 1;
            }
            proof {
                assert(closed(adj@, distance@, node as int));
            }
        } else {
            proof {
                assert forall|jj: int| 0 <= jj < worklist@.len() implies (#[trigger] worklist@[jj]) < n && distance@[worklist@[jj] as int] is Some
                    && cur <= dist(distance@, worklist@[jj] as int) <= cur + 1 by {
                    assert(worklist@[jj] == q0[jj + 1]);
                }
                assert forall|v: int| 0 <= v < n && (#[trigger] distance@[v]) is Some implies visited@[v] || worklist@.contains(v as usize) by {
                    if !visited@[v] {
                        let jj = choose|jj: int| 0 <= jj < q0.len() && q0[jj] == v as usize;
                        assert(jj != 0);
                        assert(worklist@[jj - 1] == v as usize);
                    }
                }
            }
        }
    }
    proof {
        assert forall|v: int| 0 <= v < n && (#[trigger] distance@[v]) is Some implies closed(adj@, distance@, v) by {
            assert(visited@[v]);
        }
    }
    let mut longest: usize = start;
    let mut k: usize = 0;
    while k < n
        invariant
            n == g.node_count,
            distance.len() == n,
            k <= n,
            longest < n,
            distance@[longest as int] is Some,
            forall|v: int| 0 <= v < k ==> dist(distance@, v) <= dist(distance@, longest as int),
            forall|v: int| longest < v < k ==> dist(distance@, v) < dist(distance@, longest as int),
        decreases n - k,
    {
        if key_at_least(distance[k], distance[longest]) {
            longest = k;
        }
        k = k + 1;
    }
    let far = longest;
    let ghost dfar = dist(distance@, far as int);
    let mut path: Vec<usize> = Vec::new();
    path.push(far);
    let mut current = far;
    while current != start
        invariant
            pred_ok(g, start, distance@, predecessor@),
            current < n,
            n == g.node_count,
            distance@[current as int] is Some,
            path.len() >= 1,
            path@[0] == far,
            path@.last() == current,
            path.len() == dfar - dist(distance@, current as int) + 1,
            forall|i: int| 0 <= i < path.len() - 1 ==> #[trigger] back_step(g, path@, i),
        decreases dist(distance@, current as int),
    {
        let ghost old_path = path@;
        current = predecessor[current].unwrap();
        path.push(current);
        proof {
            assert forall|i: int| 0 <= i < path.len() - 1 implies #[trigger] back_step(g, path@, i) by {
                if i < path.len() - 2 {
                    assert(back_step(g, old_path, i));
                } else {
                    assert(path@[i] == old_path.last());
                }
            }
        }
    }
    let mut r: Vec<usize> = Vec::new();
    let mut m: usize = path.len();
    while m > 0
        invariant
            m <= path.len(),
            r.len() == path.len() - m,
            forall|j: int| 0 <= j < r.len() ==> r@[j] == path@[path.len() - 1 - j],
        decreases m,
    {
        m = m - 1;
        r.push(path[m]);
    }
    proof {
        assert forall|j: int| 0 <= j < r.len() - 1 implies #[trigger] step(g, r@, j) by {
            assert(back_step(g, path@, path.len() - 2 - j));
        }
        assert(is_walk(g, r@));
        assert forall|q: Seq<usize>| #[trigger] is_walk(g, q) && q[0] == r@[0] && q.last() == r@.last() implies q.len() >= r@.len() by {
            lemma_walk_bound(g, adj@, start, distance@, q);
        }
        assert forall|v: usize, k: int| #[trigger] walk_within(g, start, v, k) implies walk_within(g, start, v, r.len() - 1)
            && (v > r@.last() ==> walk_within(g, start, v, r.len() - 2)) by {
            let p = choose|p: Seq<usize>| #[trigger] is_walk(g, p) && p[0] == start && p.last() == v && p.len() <= k + 1;
            lemma_walk_bound(g, adj@, start, distance@, p);
            lemma_pred_walk(g, start, distance@, predecessor@, v);
            let w = pred_walk(predecessor@, v, dist(distance@, v as int) as nat);
            assert(is_walk(g, w));
        }
    }
    r
}

/// The key by which the farthest node is chosen: no distance ranks below
/// every distance.
fn key_at_least(a: Option<usize>, b: Option<usize>) -> (r: bool)
    ensures
        r == (opt_key(a) >= opt_key(b)),
{
    match (a, b) {
        (Some(x), Some(y)) => x >= y,
        (Some(_), None) => true,
        (None, Some(_)) => false,
        (None, None) => true,
    }
}

/// An optional distance as a number, -1 for none.
pub open spec fn opt_key(a: Option<usize>) -> int {
    match a {
        Some(k) => k as int,
        None => -1,
    }
}

/// The `i`-th step of `p`, read backwards, follows an edge of `g`.
pub open spec fn back_step(g: &UGraph, p: Seq<usize>, i: int) -> bool {
    g.adjacent(p[i + 1] as int, p[i] as int)
}

proof fn lemma_below_len(n: nat)
    requires
        n <= usize::MAX,
    ensures
        below(n).finite(),
        below(n).len() == n,
    decreases n,
{
    if n == 0 {
        assert(below(0) =~= Set::empty());
    } else {
        lemma_below_len((n - 1) as nat);
        assert(below(n) =~= below((n - 1) as nat).insert((n - 1) as usize));
    }
}

proof fn lemma_within_mono(g: &UGraph, a: usize, b: usize, k: int, m: int)
    requires
        walk_within(g, a, b, k),
        k <= m,
    ensures
        walk_within(g, a, b, m),
{
    let p = choose|p: Seq<usize>| #[trigger] is_walk(g, p) && p[0] == a && p.last() == b && p.len() <= k + 1;
    assert(is_walk(g, p));
}

/// A path along a diameter of `g`: a shortest walk between two nodes that
/// are as far apart as any two nodes of `g` joined by a walk.
pub fn diameter(g: &UGraph) -> (r: Vec<usize>)
    requires
        g.wf(),
        g.fits(),
        g.node_count > 0,
    ensures
        shortest_walk(g, r@),
        forall|u: usize, v: usize, k: int| u < g.node_count && #[trigger] walk_within(g, u, v, k) ==> walk_within(g, u, v, r.len() - 1),
{
    let mut best = longest_shortest_path(g, 0);
    let mut s: usize = 1;
    while s < g.node_count
        invariant
            g.wf(),
            g.fits(),
            1 <= s <= g.node_count,
            shortest_walk(g, best@),
            best.len() >= 1,
            forall|u: usize, v: usize, k: int| u < s && #[trigger] walk_within(g, u, v, k) ==> walk_within(g, u, v, best.len() - 1),
        decreases g.node_count - s,
    {
        let p = longest_shortest_path(g, s);
        let ghost old_len = best.len();
        if p.len() >= best.len() {
            best = p;
        }
        proof {
            assert forall|u: usize, v: usize, k: int| u < s + 1 && #[trigger] walk_within(g, u, v, k) implies walk_within(g, u, v, best.len() - 1) by {
                if u < s {
                    lemma_within_mono(g, u, v, old_len - 1, best.len() - 1);
                } else {
                    lemma_within_mono(g, u, v, p.len() - 1, best.len() - 1);
                }
            }
        }
        s = s + 1;
    }
    best
}

/// `parts` are the connected components of `g`: nonempty, without repeats,
/// of nodes of `g`, each node in exactly one, no edge between two of them.
pub open spec fn parts_of(g: &UGraph, parts: Seq<Vec<usize>>) -> bool {
    &&& forall|c: int| 0 <= c < parts.len() ==> (#[trigger] parts[c])@.no_duplicates() && parts[c].len() > 0
    &&& forall|c: int, i: int| 0 <= c < parts.len() && 0 <= i < parts[c].len() ==> (#[trigger] parts[c]@[i]) < g.node_count
    &&& forall|u: usize| u < g.node_count ==> #[trigger] in_part(parts, u)
    &&& forall|c1: int, c2: int, u: usize|
        0 <= c1 < parts.len() && 0 <= c2 < parts.len() && c1 != c2 && #[trigger] parts[c1]@.contains(u)
            ==> !(#[trigger] parts[c2]@.contains(u))
    &&& forall|c: int, e: int| 0 <= c < parts.len() && 0 <= e < g.edges.len()
        ==> (#[trigger] parts[c]@.contains(#[trigger] g.edges@[e].0) <==> parts[c]@.contains(g.edges@[e].1))
}

/// The connected components of `g`, each a list of its nodes; any two nodes
/// of one component are joined by a walk.
pub fn connected_parts(g: &UGraph) -> (r: Vec<Vec<usize>>)
    requires
        g.wf(),
        g.fits(),
    ensures
        parts_of(g, r@),
        forall|c: int, u: usize, v: usize| 0 <= c < r.len() && #[trigger] r@[c]@.contains(u) && #[trigger] r@[c]@.contains(v)
            ==> walk_within(g, u, v, g.node_count as int),
{
    components(g)
}

/// How many of `parts` have `s` nodes.
pub open spec fn count_of_size(parts: Seq<Vec<usize>>, s: nat) -> nat
    decreases parts.len(),
{
    if parts.len() == 0 {
        0
    } else {
        count_of_size(parts.drop_last(), s) + if parts.last().len() == s { 1nat } else { 0nat }
    }
}

proof fn lemma_count_of_size_bound(parts: Seq<Vec<usize>>, s: nat)
    ensures
        count_of_size(parts, s) <= parts.len(),
        count_of_size(parts, s) > 0 <==> exists|c: int| 0 <= c < parts.len() && (#[trigger] parts[c]).len() == s,
    decreases parts.len(),
{
    if parts.len() > 0 {
        lemma_count_of_size_bound(parts.drop_last(), s);
        if count_of_size(parts.drop_last(), s) > 0 {
            let c = choose|c: int| 0 <= c < parts.drop_last().len() && (#[trigger] parts.drop_last()[c]).len() == s;
            assert(parts[c] == parts.drop_last()[c]);
        }
        if exists|c: int| 0 <= c < parts.len() && (#[trigger] parts[c]).len() == s {
            let c = choose|c: int| 0 <= c < parts.len() && (#[trigger] parts[c]).len() == s;
            if c < parts.len() - 1 {
                assert(parts.drop_last()[c] == parts[c]);
            }
        }
    }
}

/// The sizes of the components of `g`, in increasing order, each with the
/// number of components of that size.
pub fn counts_by_size(g: &UGraph, parts: &Vec<Vec<usize>>) -> (r: Vec<(usize, usize)>)
    requires
        g.wf(),
        g.fits(),
        parts_of(g, parts@),
    ensures
        forall|i: int, j: int| 0 <= i < j < r.len() ==> (#[trigger] r@[i]).0 < (#[trigger] r@[j]).0,
        forall|i: int| 0 <= i < r.len() ==> (#[trigger] r@[i]).1 == count_of_size(parts@, r@[i].0 as nat) && r@[i].1 > 0,
        forall|c: int| 0 <= c < parts.len() ==> exists|i: int| 0 <= i < r.len() && (#[trigger] r@[i]).0 == (#[trigger] parts@[c]).len(),
{
    let n = g.node_count;
    let mut counts: Vec<usize> = Vec::new();
    let mut s: usize = 0;
    while s <= n
        invariant
            s <= n + 1,
            n == g.node_count,
            g.fits(),
            counts.len() == s,
            forall|t: int| 0 <= t < s ==> counts@[t] == 0,
        decreases n + 1 - s,
    {
        counts.push(0);
        s = s + 1;
    }
    let mut c: usize = 0;
    while c < parts.len()
        invariant
            c <= parts.len(),
            n == g.node_count,
            g.fits(),
            parts_of(g, parts@),
            counts.len() == n + 1,
            forall|t: int| 0 <= t <= n ==> #[trigger] counts@[t] == count_of_size(parts@.take(c as int), t as nat),
        decreases parts.len() - c,
    {
        let len = parts[c].len();
        proof {
            let p = parts@[c as int]@;
            assert forall|x: usize| p.to_set().contains(x) implies below(n as nat).contains(x) by {
                let i = choose|i: int| 0 <= i < p.len() && p[i] == x;
                assert(parts@[c as int]@[i] < n);
            }
            lemma_set_len(p);
            lemma_below_len(n as nat);
            vstd::set_lib::lemma_len_subset(p.to_set(), below(n as nat));
            lemma_count_of_size_bound(parts@.take(c as int), len as nat);
            assert(parts@.take(c + 1).drop_last() == parts@.take(c as int));
            assert(parts@.take(c + 1).last() == parts@[c as int]);
        }
        counts.set(len, counts[len] + 1);
        c = c + 1;
    }
    assert(parts@.take(parts.len() as int) == parts@);
    let mut r: Vec<(usize, usize)> = Vec::new();
    let mut t: usize = 0;
    while t <= n
        invariant
            t <= n + 1,
            n == g.node_count,
            g.fits(),
            parts_of(g, parts@),
            counts.len() == n + 1,
            forall|t: int| 0 <= t <= n ==> #[trigger] counts@[t] == count_of_size(parts@, t as nat),
            forall|i: int, j: int| 0 <= i < j < r.len() ==> (#[trigger] r@[i]).0 < (#[trigger] r@[j]).0,
            forall|i: int| 0 <= i < r.len() ==> (#[trigger] r@[i]).0 < t,
            forall|i: int| 0 <= i < r.len() ==> (#[trigger] r@[i]).1 == count_of_size(parts@, r@[i].0 as nat) && r@[i].1 > 0,
            forall|z: int| 0 <= z < t && #[trigger] count_of_size(parts@, z as nat) > 0 ==> exists|i: int| 0 <= i < r.len() && (#[trigger] r@[i]).0 == z,
        decreases n + 1 - t,
    {
        if counts[t] > 0 {
            let ghost r0 = r@;
            r.push((t, counts[t]));
            proof {
                assert forall|z: int| 0 <= z < t + 1 && #[trigger] count_of_size(parts@, z as nat) > 0 implies exists|i: int| 0 <= i < r.len() && (#[trigger] r@[i]).0 == z by {
                    if z < t {
                        let i = choose|i: int| 0 <= i < r0.len() && (#[trigger] r0[i]).0 == z;
                        assert(r@[i] == r0[i]);
                    } else {
                        assert(r@[r.len() - 1].0 == z);
                    }
                }
            }
        }
        t = t + 1;
    }
    proof {
        assert forall|c: int| 0 <= c < parts.len() implies exists|i: int| 0 <= i < r.len() && (#[trigger] r@[i]).0 == (#[trigger] parts@[c]).len() by {
            let p = parts@[c]@;
            assert forall|x: usize| p.to_set().contains(x) implies below(n as nat).contains(x) by {
                let i = choose|i: int| 0 <= i < p.len() && p[i] == x;
                assert(parts@[c]@[i] < n);
            }
            lemma_set_len(p);
            lemma_below_len(n as nat);
            vstd::set_lib::lemma_len_subset(p.to_set(), below(n as nat));
            lemma_count_of_size_bound(parts@, parts@[c].len() as nat);
            let z = parts@[c].len() as int;
            assert(count_of_size(parts@, z as nat) > 0);
        }
    }
    r
}

/// The number of ends of edges of `edges` in `part`, a loop counting once.
pub open spec fn edge_ends(edges: Seq<(usize, usize)>, part: Seq<usize>) -> nat
    decreases edges.len(),
{
    if edges.len() == 0 {
        0
    } else {
        let e = edges.last();
        edge_ends(edges.drop_last(), part) + (if part.contains(e.0) { 1nat } else { 0nat })
            + (if part.contains(e.1) && e.1 != e.0 { 1nat } else { 0nat })
    }
}

/// For each component of `g`, the number of ends of edges in it: the sum of
/// the degrees of its nodes, a loop counting once.
pub fn edge_ends_per_part(g: &UGraph, parts: &Vec<Vec<usize>>) -> (r: Vec<usize>)
    requires
        g.wf(),
        g.fits(),
        2 * g.edges.len() <= usize::MAX,
        parts_of(g, parts@),
    ensures
        r.len() == parts.len(),
        forall|c: int| 0 <= c < parts.len() ==> #[trigger] r@[c] == edge_ends(g.edges@, parts@[c]@),
{
    let n = g.node_count;
    let mut part_of: Vec<usize> = Vec::new();
    let mut x: usize = 0;
    while x < n
        invariant
            x <= n,
            n == g.node_count,
            part_of.len() == x,
        decreases n - x,
    {
        part_of.push(0);
        x = x + 1;
    }
    let mut c: usize = 0;
    while c < parts.len()
        invariant
            c <= parts.len(),
            n == g.node_count,
            parts_of(g, parts@),
            part_of.len() == n,
            forall|d: int, y: usize| 0 <= d < c && #[trigger] parts@[d]@.contains(y) ==> part_of@[y as int] == d,
        decreases parts.len() - c,
    {
        let mut i: usize = 0;
        while i < parts[c].len()
            invariant
                c < parts.len(),
                i <= parts@[c as int].len(),
                n == g.node_count,
                parts_of(g, parts@),
                part_of.len() == n,
                forall|d: int, y: usize| 0 <= d < c && #[trigger] parts@[d]@.contains(y) ==> part_of@[y as int] == d,
                forall|j: int| 0 <= j < i ==> part_of@[#[trigger] parts@[c as int]@[j] as int] == c,
            decreases parts@[c as int].len() - i,
        {
            let y = parts[c][i];
            proof {
                assert(parts@[c as int]@[i as int] < n);
                assert forall|d: int, z: usize| 0 <= d < c && #[trigger] parts@[d]@.contains(z) implies z != y by {
                    assert(parts@[c as int]@.contains(y));
                }
                assert forall|j: int| 0 <= j < i implies parts@[c as int]@[j] != y by {
                    assert(parts@[c as int]@.no_duplicates());
                }
            }
            part_of.set(y, c);
            i = i + 1;
        }
        proof {
            assert forall|d: int, y: usize| 0 <= d < c + 1 && #[trigger] parts@[d]@.contains(y) implies part_of@[y as int] == d by {
                if d == c {
                    let j = choose|j: int| 0 <= j < parts@[c as int]@.len() && parts@[c as int]@[j] == y;
                }
            }
        }
        c = c + 1;
    }
    let mut r: Vec<usize> = Vec::new();
    let mut c2: usize = 0;
    while c2 < parts.len()
        invariant
            c2 <= parts.len(),
            r.len() == c2,
            forall|d: int| 0 <= d < c2 ==> r@[d] == 0,
        decreases parts.len() - c2,
    {
        r.push(0);
        c2 = c2 + 1;
    }
    let mut e: usize = 0;
    while e < g.edges.len()
        invariant
            e <= g.edges.len(),
            g.wf(),
            g.fits(),
            n == g.node_count,
            parts_of(g, parts@),
            part_of.len() == n,
            r.len() == parts.len(),
            forall|d: int, y: usize| 0 <= d < parts.len() && #[trigger] parts@[d]@.contains(y) ==> part_of@[y as int] == d,
            forall|d: int| 0 <= d < parts.len() ==> #[trigger] r@[d] == edge_ends(g.edges@.take(e as int), parts@[d]@),
            forall|d: int| 0 <= d < parts.len() ==> #[trigger] r@[d] <= 2 * e,
            2 * g.edges.len() <= usize::MAX,
        decreases g.edges.len() - e,
    {
        let (a, b) = g.edges[e];
        proof {
            assert(g.edges@[e as int].0 < n && g.edges@[e as int].1 < n);
            assert(in_part(parts@, a));
            let ca = choose|ca: int| 0 <= ca < parts@.len() && (#[trigger] parts@[ca])@.contains(a);
            assert(parts@[ca]@.contains(g.edges@[e as int].0) <==> parts@[ca]@.contains(g.edges@[e as int].1));
            assert(part_of@[a as int] == ca);
            assert(part_of@[b as int] == ca);
            assert(g.edges@.take(e + 1).drop_last() == g.edges@.take(e as int));
            assert(g.edges@.take(e + 1).last() == (a, b));
            assert forall|d: int| 0 <= d < parts.len() && d != ca implies !(#[trigger] parts@[d])@.contains(a) && !parts@[d]@.contains(b) by {}
        }
        let pa = part_of[a];
        r.set(pa, r[pa] + 1);
        if b != a {
            r.set(pa, r[pa] + 1);
        }
        e = e + 1;
    }
    assert(g.edges@.take(g.edges.len() as int) == g.edges@);
    r
}

} // verus!
