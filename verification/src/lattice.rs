//! Graphs of the lattice: finite sets of nodes with all lattice edges
//! between them.

use vstd::prelude::*;
use std::collections::BTreeMap;
use crate::node::Node;
use crate::region::Region;
use crate::sorting::{sorted_nodes, strictly_sorted_nodes, lemma_strict_implies_sorted};

verus! {

broadcast use {
    vstd::laws_cmp::group_laws_cmp,
    vstd::std_specs::btree::group_btree_axioms,
};

/// The map from each node of `s` to the position of its last occurrence in
/// `s`: the map that inserting `(s[i], i)` for each `i` in order builds.
pub open spec fn index_map(s: Seq<Node>) -> Map<Node, usize>
    decreases s.len(),
{
    if s.len() == 0 {
        Map::empty()
    } else {
        index_map(s.drop_last()).insert(s.last(), (s.len() - 1) as usize)
    }
}

pub proof fn lemma_index_map(s: Seq<Node>)
    requires
        s.len() <= usize::MAX,
    ensures
        forall|n: Node| #[trigger] index_map(s).dom().contains(n) == s.contains(n),
        forall|n: Node| #[trigger] index_map(s).dom().contains(n) ==> index_map(s)[n] < s.len()
            && s[index_map(s)[n] as int] == n,
        s.no_duplicates() ==> forall|i: int| 0 <= i < s.len() ==> #[trigger] index_map(s)[s[i]] == i,
    decreases s.len(),
{
    if s.len() > 0 {
        let t = s.drop_last();
        lemma_index_map(t);
        assert(index_map(s) == index_map(t).insert(s.last(), (s.len() - 1) as usize));
        assert forall|n: Node| #[trigger] index_map(s).dom().contains(n) == s.contains(n) by {
            if s.contains(n) && n != s.last() {
                let i = choose|i: int| 0 <= i < s.len() && s[i] == n;
                assert(i < s.len() - 1);
                assert(t[i] == n);
            }
            if t.contains(n) {
                let i = choose|i: int| 0 <= i < t.len() && t[i] == n;
                assert(s[i] == n);
            }
        }
        if s.no_duplicates() {
            assert(t.no_duplicates());
            assert forall|i: int| 0 <= i < s.len() implies #[trigger] index_map(s)[s[i]] == i by {
                if i < s.len() - 1 {
                    assert(t[i] == s[i]);
                    assert(s[i] != s.last());
                }
            }
        }
    }
}

/// The ordinal of `n` among the nodes `g`: the position of its last
/// occurrence.
pub open spec fn node_index(g: Seq<Node>, n: Node) -> usize {
    index_map(g)[n]
}

/// Each node of `g` is at its ordinal; with no node twice, the ordinal of
/// the node at position `i` is `i`.
pub proof fn lemma_node_index(g: Seq<Node>)
    requires
        g.len() <= usize::MAX,
    ensures
        forall|n: Node| #[trigger] g.contains(n) ==> node_index(g, n) < g.len() && g[node_index(g, n) as int] == n,
        g.no_duplicates() ==> forall|i: int| 0 <= i < g.len() ==> #[trigger] node_index(g, g[i]) == i,
{
    lemma_index_map(g);
    assert forall|n: Node| #[trigger] g.contains(n) implies node_index(g, n) < g.len() && g[node_index(g, n) as int] == n by {
        assert(index_map(g).dom().contains(n));
    }
}

/// A graph in the lattice: a set of nodes, in increasing order, with an
/// ordinal for each node.
#[derive(PartialEq, Eq, PartialOrd, Ord, Hash, Debug, Clone)]
pub struct Graph {
    nodes: Vec<Node>,
    // the ordinal of each node in the standard order, so that data about the
    // nodes can be held in vectors
    indices: BTreeMap<Node, usize>,
}

impl View for Graph {
    type V = Seq<Node>;

    closed spec fn view(&self) -> Seq<Node> {
        self.nodes@
    }
}

/// The nodes of the triangle of side `n` hinged at the origin, in the order
/// in which they are listed.
pub open spec fn triangle_nodes(n: nat) -> Seq<Node>
    decreases n,
{
    triangle_rows(n, n)
}

/// Columns `0 .. k` of the triangle of side `n`.
pub open spec fn triangle_rows(n: nat, k: nat) -> Seq<Node>
    decreases k,
{
    if k == 0 {
        Seq::empty()
    } else {
        triangle_rows(n, (k - 1) as nat) + triangle_column(n, (k - 1) as nat)
    }
}

/// Column `i` of the triangle of side `n`: `(i, i + 2 j)` for `j < n - i`.
pub open spec fn triangle_column(n: nat, i: nat) -> Seq<Node> {
    Seq::new((n - i) as nat, |j: int| (i as i8, (i + 2 * j) as i8))
}

impl Graph {
    /// The nodes are sorted and each has its last position as ordinal.
    pub closed spec fn wf(&self) -> bool {
        &&& sorted_nodes(self.nodes@)
        &&& self.nodes@.len() <= usize::MAX
        &&& self.indices@ == index_map(self.nodes@)
    }

    /// The ordinal of each node: the position of its last occurrence.
    pub open spec fn index_of(&self, n: Node) -> usize {
        node_index(self@, n)
    }

    pub proof fn lemma_wf(&self)
        requires
            self.wf(),
        ensures
            sorted_nodes(self@),
            forall|n: Node| #[trigger] self@.contains(n) ==> self.index_of(n) < self@.len()
                && self@[self.index_of(n) as int] == n,
            self@.no_duplicates() ==> forall|i: int| 0 <= i < self@.len() ==> #[trigger] self.index_of(self@[i]) == i,
            self@.len() <= usize::MAX,
    {
        lemma_index_map(self.nodes@);
        assert forall|n: Node| #[trigger] self@.contains(n) implies self.index_of(n) < self@.len()
                && self@[self.index_of(n) as int] == n by {
            assert(index_map(self.nodes@).dom().contains(n));
        }
    }

    fn build_indices(nodes: &Vec<Node>) -> (m: BTreeMap<Node, usize>)
        ensures
            m@ == index_map(nodes@),
    {
        let mut m: BTreeMap<Node, usize> = BTreeMap::new();
        let mut i: usize = 0;
        while i < nodes.len()
            invariant
                i <= nodes.len(),
                m@ == index_map(nodes@.subrange(0, i as int)),
            decreases nodes.len() - i,
        {
            m.insert(nodes[i], i);
            proof {
                let t = nodes@.subrange(0, i + 1);
                assert(t.drop_last() == nodes@.subrange(0, i as int));
                assert(t.last() == nodes@[i as int]);
            }
            i = i + 1;
        }
        proof {
            assert(nodes@.subrange(0, nodes@.len() as int) == nodes@);
        }
        m
    }

    /// The graph on the nodes of `r`.
    pub fn from(r: Region) -> (g: Graph)
        requires
            r.wf(),
        ensures
            g.wf(),
            g@ == r@,
    {
        let nodes = r.into_vec();
        let indices = Graph::build_indices(&nodes);
        let _ = nodes.len();
        Graph { nodes, indices }
    }

    /// The triangle of side `n` hinged at the origin, facing right.
    pub fn triangle(n: usize) -> (g: Graph)
        requires
            n <= 64,
        ensures
            g.wf(),
            g@ == triangle_nodes(n as nat),
            strictly_sorted_nodes(g@),
    {
        let mut nodes: Vec<Node> = Vec::new();
        let mut i: usize = 0;
        while i < n
            invariant
                i <= n <= 64,
                nodes@ == triangle_rows(n as nat, i as nat),
            decreases n - i,
        {
            let mut j: usize = 0;
            let ghost before = nodes@;
            while j < n - i
                invariant
                    i < n <= 64,
                    j <= n - i,
                    nodes@ == before + triangle_column(n as nat, i as nat).subrange(0, j as int),
                decreases n - i - j,
            {
                nodes.push((i as i8, (i + 2 * j) as i8));
                proof {
                    let c = triangle_column(n as nat, i as nat);
                    assert(c.subrange(0, j + 1) == c.subrange(0, j as int).push(c[j as int]));
                }
                j = j + 1;
            }
            proof {
                let c = triangle_column(n as nat, i as nat);
                assert(c.subrange(0, c.len() as int) == c);
            }
            i = i + 1;
        }
        proof {
            lemma_triangle_sorted(n as nat, n as nat);
            lemma_strict_implies_sorted(nodes@);
        }
        let indices = Graph::build_indices(&nodes);
        let _ = nodes.len();
        Graph { nodes, indices }
    }

    /// The `i`-th node.
    pub(crate) fn node_at(&self, i: usize) -> (r: Node)
        requires
            i < self@.len(),
        ensures
            r == self@[i as int],
    {
        self.nodes[i]
    }

    /// The nodes, in increasing order.
    pub fn nodes(&self) -> (r: &Vec<Node>)
        ensures
            r@ == self@,
    {
        &self.nodes
    }

    /// Whether `n` is a node of the graph.
    pub fn contains(&self, n: &Node) -> (r: bool)
        requires
            self.wf(),
        ensures
            r == self@.contains(*n),
    {
        proof {
            lemma_index_map(self.nodes@);
        }
        self.indices.contains_key(n)
    }

    /// The ordinal of `n`, if it is a node of the graph.
    pub fn get_index(&self, n: &Node) -> (r: Option<usize>)
        requires
            self.wf(),
        ensures
            r is Some == self@.contains(*n),
            r matches Some(i) ==> i == self.index_of(*n) && i < self@.len() && self@[i as int] == *n,
    {
        proof {
            lemma_index_map(self.nodes@);
        }
        match self.indices.get(n) {
            Some(i) => {
                proof {
                    assert(self.indices@.dom().contains(*n));
                }
                Some(*i)
            },
            None => None,
        }
    }

    /// Number of nodes.
    pub fn len(&self) -> (r: usize)
        ensures
            r == self@.len(),
    {
        self.nodes.len()
    }

    /// Whether the graph has no node.
    pub fn is_empty(&self) -> (r: bool)
        ensures
            r == (self@.len() == 0),
    {
        self.nodes.len() == 0
    }

    /// The region of the nodes of the graph.
    pub fn into_region(self) -> (r: Region)
        ensures
            r.wf(),
            r@.to_multiset() == self@.to_multiset(),
            r@.to_set() == self@.to_set(),
            self.wf() ==> r@ == self@,
    {
        let ghost v = self@;
        let r = Region::from(self.nodes);
        proof {
            if self.wf() {
                crate::sorting::lemma_sorted_nodes_unique(r@, v);
            }
        }
        r
    }
}

proof fn lemma_triangle_sorted(n: nat, k: nat)
    requires
        k <= n <= 64,
    ensures
        strictly_sorted_nodes(triangle_rows(n, k)),
        forall|m: int| 0 <= m < triangle_rows(n, k).len() ==> 0 <= #[trigger] triangle_rows(n, k)[m].0 < k
            && triangle_rows(n, k)[m].0 == m_col(triangle_rows(n, k)[m]),
    decreases k,
{
    if k > 0 {
        lemma_triangle_sorted(n, (k - 1) as nat);
        let a = triangle_rows(n, (k - 1) as nat);
        let c = triangle_column(n, (k - 1) as nat);
        let s = a + c;
        assert(triangle_rows(n, k) == s);
        assert forall|m: int| 0 <= m < c.len() implies #[trigger] c[m].0 == k - 1 && c[m].1 == k - 1 + 2 * m by {
        }
        assert forall|p: int, q: int| 0 <= p < q < s.len() implies crate::node::node_lt(#[trigger] s[p], #[trigger] s[q]) by {
            if q >= a.len() && p >= a.len() {
                assert(s[p] == c[p - a.len()] && s[q] == c[q - a.len()]);
            } else if q >= a.len() {
                assert(s[q] == c[q - a.len()]);
                assert(s[p] == a[p]);
            } else {
            }
        }
    }
}

spec fn m_col(n: Node) -> i8 {
    n.0
}

} // verus!
