//! Partial tilings of a graph by tiles of equal size.

use vstd::prelude::*;
use crate::node::{Node, node_add, add_fits, spec_add};
use crate::lattice::{Graph, node_index, lemma_node_index};
use crate::region::Region;
use crate::color::Color;
use crate::ordset::{KeyOrder, TotalKey};

verus! {

/// The colors of the nodes of a tiling, `None` for an uncolored node.
pub type Coloring = Seq<Option<u8>>;

/// What a tiling holds besides its graph: the color of each node, the first
/// uncolored node that tiles are placed at, and the next fresh color.
pub type TilingView = (Coloring, Option<Node>, u8);

pub open spec fn color_view(c: Option<Color>) -> Option<u8> {
    match c {
        Some(k) => Some(k@),
        None => None,
    }
}

/// The first uncolored node at a position `p` or later.
pub open spec fn next_uncolored_from(c: Coloring, g: Seq<Node>, p: int) -> Option<Node>
    decreases c.len() - p,
{
    if p < 0 || p >= c.len() {
        None
    } else if c[p] is None {
        Some(g[p])
    } else {
        next_uncolored_from(c, g, p + 1)
    }
}

/// A tiling of a graph: a partial coloring of its nodes, where each color is
/// a tile.
#[derive(Debug, Clone, PartialEq, Eq, Hash, PartialOrd, Ord)]
pub struct Tiling<'graph> {
    pub graph: &'graph Graph,
    // color of each node, by the node's ordinal in the graph
    color: Vec<Option<Color>>,
    next_uncolored_cell: Option<Node>,
    next_color: Color,
}

impl<'g> View for Tiling<'g> {
    type V = TilingView;

    closed spec fn view(&self) -> TilingView {
        (self.color@.map_values(|c: Option<Color>| color_view(c)), self.next_uncolored_cell, self.next_color@)
    }
}

/// The view of a tiling after setting the color of node `n`, the node at
/// position `i` of the graph `g`, to `col`: if `n` was the next uncolored
/// node, the next one is looked for from `n` on.
pub open spec fn spec_set_color(t: TilingView, g: Seq<Node>, i: int, n: Node, col: u8) -> TilingView {
    let c = t.0.update(i, Some(col));
    (c, if t.1 == Some(n) { next_uncolored_from(c, g, i) } else { t.1 }, t.2)
}

impl<'g> Tiling<'g> {
    /// The coloring has a slot for each node of a well-formed graph, and the
    /// next color is positive.
    pub closed spec fn wf(&self) -> bool {
        &&& self.graph.wf()
        &&& self.color@.len() == self.graph@.len()
        &&& self.next_color@ != 0
        &&& forall|i: int| 0 <= i < self.color@.len() ==> (#[trigger] self.color@[i] matches Some(c) ==> c@ != 0)
    }

    /// The nodes of the graph of the tiling.
    pub closed spec fn nodes(&self) -> Seq<Node> {
        self.graph@
    }

    /// The ordinal of a node in the graph of the tiling.
    pub closed spec fn index(&self, n: Node) -> int {
        self.graph.index_of(n) as int
    }

    pub proof fn lemma_graph(&self)
        ensures
            forall|n: Node| #[trigger] self.index(n) == node_index(self.nodes(), n) as int,
    {
    }

    pub proof fn lemma_wf(&self)
        requires
            self.wf(),
        ensures
            self@.0.len() == self.nodes().len(),
            self@.2 != 0,
            forall|i: int| 0 <= i < self@.0.len() ==> (#[trigger] self@.0[i] matches Some(c) ==> c != 0),
            forall|n: Node| #[trigger] self.nodes().contains(n) ==> 0 <= self.index(n) < self.nodes().len()
                && self.nodes()[self.index(n)] == n,
            crate::sorting::sorted_nodes(self.nodes()),
            self.nodes().len() <= usize::MAX,
            self.nodes().no_duplicates() ==> forall|i: int| 0 <= i < self.nodes().len() ==> #[trigger] self.index(self.nodes()[i]) == i,
    {
        self.graph.lemma_wf();
        assert forall|i: int| 0 <= i < self@.0.len() implies (#[trigger] self@.0[i] matches Some(c) ==> c != 0) by {
            assert(self@.0[i] == color_view(self.color@[i]));
        }
    }

    /// The empty tiling of `graph`.
    pub fn of_graph(graph: &'g Graph) -> (t: Tiling<'g>)
        requires
            graph.wf(),
            graph@.len() > 0,
        ensures
            t.wf(),
            t.nodes() == graph@,
            t@ == (Seq::new(graph@.len(), |i: int| None::<u8>), Some(graph@[0]), 1u8),
    {
        let n = graph.len();
        let mut color: Vec<Option<Color>> = Vec::new();
        let mut i: usize = 0;
        while i < n
            invariant
                i <= n,
                n == graph@.len(),
                color@.len() == i,
                forall|j: int| 0 <= j < i ==> #[trigger] color@[j] is None,
            decreases n - i,
        {
            color.push(None);
            i = i + 1;
        }
        let t = Tiling {
            graph,
            color,
            next_uncolored_cell: Some(graph.node_at(0)),
            next_color: Color::new(1),
        };
        proof {
            assert(t@.0 =~= Seq::new(graph@.len(), |i: int| None::<u8>));
        }
        t
    }

    /// Number of nodes of the tiled graph.
    pub(crate) fn len(&self) -> (r: usize)
        ensures
            r == self@.0.len(),
    {
        self.color.len()
    }

    /// The graph of the tiling.
    pub fn graph(&self) -> (r: &'g Graph)
        ensures
            r@ == self.nodes(),
            self.wf() ==> r.wf(),
    {
        self.graph
    }

    /// Sets the color of the node `n`, and moves the next uncolored node on
    /// if it was `n`.
    pub fn set_color(&mut self, n: Node, color: Color)
        requires
            old(self).wf(),
            old(self).nodes().contains(n),
            color@ != 0,
        ensures
            final(self).wf(),
            final(self).nodes() == old(self).nodes(),
            final(self)@ == spec_set_color(old(self)@, old(self).nodes(), old(self).index(n), n, color@),
    {
        proof {
            self.lemma_wf();
        }
        let i = self.graph.get_index(&n).unwrap();
        self.color.set(i, Some(color));
        proof {
            assert(self@.0 =~= old(self)@.0.update(i as int, Some(color@)));
            assert(self.wf());
        }
        let is_next = match self.next_uncolored_cell {
            Some(m) => m.0 == n.0 && m.1 == n.1,
            None => false,
        };
        if is_next {
            proof {
                assert(old(self)@.1 == Some(n));
            }
            self.next_uncolored_cell = None;
            let ghost c = self@.0;
            let mut j: usize = i;
            while j < self.color.len()
                invariant
                    i <= j <= self.color@.len(),
                    self.color@.len() == self.graph@.len(),
                    self@.0 == c,
                    self.next_uncolored_cell is None,
                    self.wf(),
                    self.graph == old(self).graph,
                    self.next_color == old(self).next_color,
                    old(self)@.1 == Some(n),
                    i == old(self).index(n),
                    c == old(self)@.0.update(i as int, Some(color@)),
                    next_uncolored_from(c, self.graph@, i as int) == next_uncolored_from(c, self.graph@, j as int),
                decreases self.color@.len() - j,
            {
                if self.color[j].is_none() {
                    proof {
                        assert(c[j as int] is None);
                        assert(next_uncolored_from(c, self.graph@, j as int) == Some(self.graph@[j as int]));
                        assert(old(self)@.1 == Some(n));
                    }
                    self.next_uncolored_cell = Some(self.graph.node_at(j));
                    return;
                }
                proof {
                    assert(c[j as int] is Some);
                }
                j = j + 1;
            }
        }
    }

    /// The color of the node `n`, if it is a colored node of the graph.
    pub fn color(&self, n: &Node) -> (r: Option<Color>)
        requires
            self.wf(),
        ensures
            !self.nodes().contains(*n) ==> r is None,
            self.nodes().contains(*n) ==> color_view(r) == self@.0[self.index(*n)],
    {
        proof {
            self.lemma_wf();
        }
        match self.graph.get_index(n) {
            Some(i) => {
                proof {
                    assert(self@.0[i as int] == color_view(self.color@[i as int]));
                }
                self.color[i]
            },
            None => None,
        }
    }

    /// The color of the `j`-th node of the graph.
    pub fn color_at(&self, j: usize) -> (r: Option<Color>)
        requires
            j < self@.0.len(),
        ensures
            color_view(r) == self@.0[j as int],
    {
        self.color[j]
    }

    /// Whether every node is colored.
    pub fn is_complete(&self) -> (r: bool)
        ensures
            r == (self@.1 is None),
    {
        self.next_uncolored_cell.is_none()
    }

    /// The first uncolored node, where the next tile goes.
    pub fn next_uncolored(&self) -> (r: Option<Node>)
        ensures
            r == self@.1,
    {
        self.next_uncolored_cell
    }

    /// The next fresh color.
    pub fn next_color(&self) -> (r: Color)
        ensures
            r@ == self@.2,
    {
        self.next_color
    }
}

/// Placing the first `k` nodes of the tile `r` translated by `origin`, one
/// after the other, each with the color `t.2`; `None` as soon as one falls
/// outside the graph or on a colored node.
pub open spec fn insert_prefix(g: Seq<Node>, t: TilingView, origin: Node, r: Seq<Node>, k: nat) -> Option<TilingView>
    decreases k,
{
    if k == 0 {
        Some(t)
    } else {
        match insert_prefix(g, t, origin, r, (k - 1) as nat) {
            None => None,
            Some(t1) => {
                let node = spec_add(origin, r[k - 1]);
                if !g.contains(node) || t1.0[node_index(g, node) as int] is Some {
                    None
                } else {
                    Some(spec_set_color(t1, g, node_index(g, node) as int, node, t.2))
                }
            },
        }
    }
}

/// Placing the tile `r` translated by `origin` with a fresh color, which is
/// then used up.
pub open spec fn spec_try_insert(g: Seq<Node>, t: TilingView, origin: Node, r: Seq<Node>) -> Option<TilingView> {
    match insert_prefix(g, t, origin, r, r.len()) {
        None => None,
        Some(t1) => Some((t1.0, t1.1, (t1.2 + 1) as u8)),
    }
}

/// Painting the first `k` nodes of `r` with the color `col`.
pub open spec fn paint_prefix(g: Seq<Node>, t: TilingView, r: Seq<Node>, col: u8, k: nat) -> TilingView
    decreases k,
{
    if k == 0 {
        t
    } else {
        let t1 = paint_prefix(g, t, r, col, (k - 1) as nat);
        spec_set_color(t1, g, node_index(g, r[k - 1]) as int, r[k - 1], col)
    }
}

/// Renumbering the colors of the first `k` nodes in the order in which they
/// first appear: the renumbered colors, the renumbering, and the next number.
pub open spec fn norm_prefix(s: Coloring, k: nat) -> (Coloring, Map<u8, u8>, nat)
    decreases k,
{
    if k == 0 {
        (Seq::empty(), Map::empty(), 1)
    } else {
        let (out, m, next) = norm_prefix(s, (k - 1) as nat);
        match s[k - 1] {
            None => (out.push(None), m, next),
            Some(c) => if m.dom().contains(c) {
                (out.push(Some(m[c])), m, next)
            } else {
                (out.push(Some(next as u8)), m.insert(c, next as u8), next + 1)
            },
        }
    }
}

/// The coloring with its colors renumbered in order of first appearance.
pub open spec fn normalized(s: Coloring) -> Coloring {
    norm_prefix(s, s.len()).0
}

/// Number of distinct colors of the coloring.
pub open spec fn color_count(s: Coloring) -> nat {
    (norm_prefix(s, s.len()).2 - 1) as nat
}

pub proof fn lemma_norm_prefix(s: Coloring, k: nat)
    requires
        k <= s.len(),
        norm_prefix(s, k).2 <= 256,
    ensures
        norm_prefix(s, k).0.len() == k,
        norm_prefix(s, k).2 >= 1,
        forall|c: u8| #[trigger] norm_prefix(s, k).1.dom().contains(c) ==> 1 <= norm_prefix(s, k).1[c] < norm_prefix(s, k).2,
        forall|i: int| 0 <= i < k ==> (#[trigger] norm_prefix(s, k).0[i] is Some) == (s[i] is Some),
        forall|i: int| 0 <= i < k ==> (#[trigger] norm_prefix(s, k).0[i] matches Some(c) ==> 1 <= c < norm_prefix(s, k).2),
        forall|i: int| 0 <= i < k ==> (#[trigger] s[i] matches Some(c) ==> norm_prefix(s, k).1.dom().contains(c)
            && norm_prefix(s, k).0[i] == Some(norm_prefix(s, k).1[c])),
        norm_prefix(s, k).2 <= k + 1,
    decreases k,
{
    if k > 0 {
        assert(norm_prefix(s, (k - 1) as nat).2 <= norm_prefix(s, k).2);
        lemma_norm_prefix(s, (k - 1) as nat);
        let (out, m, next) = norm_prefix(s, (k - 1) as nat);
        let (out2, m2, next2) = norm_prefix(s, k);
        assert(forall|i: int| 0 <= i < k - 1 ==> out2[i] == out[i]);
        assert forall|c: u8| #[trigger] m2.dom().contains(c) implies 1 <= m2[c] < next2 by {
            if m.dom().contains(c) {
                assert(m2[c] == m[c]);
            }
        }
        assert forall|i: int| 0 <= i < k implies (#[trigger] out2[i] matches Some(c) ==> 1 <= c < next2) by {
            if i < k - 1 {
                assert(out2[i] == out[i]);
            }
        }
        assert forall|i: int| 0 <= i < k implies (#[trigger] s[i] matches Some(c) ==> m2.dom().contains(c) && out2[i] == Some(m2[c])) by {
            if i < k - 1 {
                assert(out2[i] == out[i]);
                if s[i] is Some {
                    let c = s[i]->0;
                    assert(m.dom().contains(c));
                    assert(m2[c] == m[c]);
                }
            }
        }
    }
}

impl<'g> Tiling<'g> {
    /// Places the tile `r`, translated by `origin`, with a fresh color, if
    /// all its nodes are uncolored nodes of the graph.
    pub fn try_insert(self, origin: Node, r: &Region) -> (res: Option<Tiling<'g>>)
        requires
            self.wf(),
            self@.2 < 255,
            forall|i: int| 0 <= i < r@.len() ==> add_fits(origin, #[trigger] r@[i]),
        ensures
            res is Some == spec_try_insert(self.nodes(), self@, origin, r@) is Some,
            res matches Some(t) ==> t.wf() && t.nodes() == self.nodes()
                && Some(t@) == spec_try_insert(self.nodes(), self@, origin, r@),
    {
        let mut t = self;
        let ghost t0 = t@;
        let ghost g = t.nodes();
        proof {
            assert(t0 == self@ && g == self.nodes());
        }
        let nodes = r.nodes();
        let col = t.next_color;
        let mut k: usize = 0;
        while k < nodes.len()
            invariant
                k <= nodes@.len(),
                nodes@ == r@,
                t.wf(),
                t.nodes() == g,
                col@ == t0.2,
                t@.2 == t0.2,
                t0.2 != 0,
                forall|i: int| 0 <= i < r@.len() ==> add_fits(origin, #[trigger] r@[i]),
                insert_prefix(g, t0, origin, r@, k as nat) == Some(t@),
                t0 == self@,
                g == self.nodes(),
            decreases nodes@.len() - k,
        {
            let node = node_add(origin, nodes[k]);
            proof {
                t.lemma_wf();
            }
            proof {
                t.lemma_graph();
                assert(node == spec_add(origin, r@[k as int]));
            }
            if !t.graph.contains(&node) || t.color(&node).is_some() {
                proof {
                    assert(insert_prefix(g, t0, origin, r@, (k + 1) as nat) is None);
                    lemma_insert_prefix_none(g, t0, origin, r@, (k + 1) as nat, r@.len());
                }
                return None;
            }
            t.set_color(node, col);
            k = k + 1;
        }
        t.next_color.increment();
        proof {
            assert(t@ == (t@.0, t@.1, (t0.2 + 1) as u8));
        }
        Some(t)
    }

    /// Paints the region `r` with the color `color`.
    pub fn paint(&mut self, r: &Region, color: Color)
        requires
            old(self).wf(),
            color@ != 0,
            forall|i: int| 0 <= i < r@.len() ==> old(self).nodes().contains(#[trigger] r@[i]),
        ensures
            final(self).wf(),
            final(self).nodes() == old(self).nodes(),
            final(self)@ == paint_prefix(old(self).nodes(), old(self)@, r@, color@, r@.len()),
    {
        let nodes = r.nodes();
        let mut k: usize = 0;
        while k < nodes.len()
            invariant
                k <= nodes@.len(),
                nodes@ == r@,
                self.wf(),
                color@ != 0,
                self.nodes() == old(self).nodes(),
                forall|i: int| 0 <= i < r@.len() ==> self.nodes().contains(#[trigger] r@[i]),
                self@ == paint_prefix(old(self).nodes(), old(self)@, r@, color@, k as nat),
            decreases nodes@.len() - k,
        {
            self.set_color(nodes[k], color);
            k = k + 1;
        }
    }

    /// Renumbers the colors in the order in which they first appear, so that
    /// tilings that differ by a permutation of colors become equal.
    pub fn normalize(&mut self)
        requires
            old(self).wf(),
            color_count(old(self)@.0) < 255,
        ensures
            final(self).wf(),
            final(self).nodes() == old(self).nodes(),
            final(self)@ == (normalized(old(self)@.0), old(self)@.1, old(self)@.2),
    {
        let ghost s = self@.0;
        let mut table: Vec<u8> = vec![0u8; 256];
        let mut next: u8 = 1;
        let mut i: usize = 0;
        proof {
            lemma_norm_prefix(s, s.len());
            assert(self.color@.len() == s.len());
            assert(norm_prefix(s, s.len()).2 <= 255);
        }
        while i < self.color.len()
            invariant
                i <= self.color@.len(),
                s.len() == self.color@.len(),
                table@.len() == 256,
                self.wf(),
                self.nodes() == old(self).nodes(),
                self@.1 == old(self)@.1,
                self@.2 == old(self)@.2,
                s == old(self)@.0,
                norm_prefix(s, s.len()).2 <= 255,
                next == norm_prefix(s, i as nat).2,
                forall|c: u8| 1 <= c ==> (#[trigger] norm_prefix(s, i as nat).1.dom().contains(c) <==> table@[c as int] != 0),
                forall|c: u8| #[trigger] norm_prefix(s, i as nat).1.dom().contains(c) ==> table@[c as int] == norm_prefix(s, i as nat).1[c],
                forall|j: int| 0 <= j < i ==> #[trigger] self@.0[j] == norm_prefix(s, i as nat).0[j],
                forall|j: int| i <= j < s.len() ==> #[trigger] self@.0[j] == s[j],
            decreases self.color@.len() - i,
        {
            proof {
                lemma_norm_prefix_mono(s, (i + 1) as nat, s.len());
                lemma_norm_prefix_mono(s, i as nat, s.len());
                lemma_norm_prefix(s, i as nat);
                lemma_norm_prefix(s, (i + 1) as nat);
                assert(self@.0[i as int] == color_view(self.color@[i as int]));
            }
            let ghost prev = self@.0;
            match self.color[i] {
                None => {
                    proof {
                        assert(self@.0 =~= prev.update(i as int, norm_prefix(s, (i + 1) as nat).0[i as int]));
                    }
                },
                Some(c) => {
                    let v = c.get();
                    proof {
                        assert(s[i as int] == Some(v));
                        assert(v != 0);
                    }
                    let mapped = table[v as usize];
                    if mapped != 0 {
                        self.color.set(i, Some(Color::new(mapped)));
                        proof {
                            assert(self@.0 =~= prev.update(i as int, Some(mapped)));
                        }
                    } else {
                        table.set(v as usize, next);
                        self.color.set(i, Some(Color::new(next)));
                        proof {
                            assert(self@.0 =~= prev.update(i as int, Some(next)));
                        }
                        next = next + 1;
                    }
                },
            }
            proof {
                assert(self@.0 == prev.update(i as int, norm_prefix(s, (i + 1) as nat).0[i as int]));
                assert forall|j: int| 0 <= j < i + 1 implies #[trigger] self@.0[j] == norm_prefix(s, (i + 1) as nat).0[j] by {
                    if j < i {
                        assert(prev[j] == norm_prefix(s, i as nat).0[j]);
                    }
                }
                assert forall|j: int| i + 1 <= j < s.len() implies #[trigger] self@.0[j] == s[j] by {
                    assert(prev[j] == s[j]);
                }
                assert forall|j: int| 0 <= j < self.color@.len() implies (#[trigger] self.color@[j] matches Some(c) ==> c@ != 0) by {
                    assert(self@.0[j] == color_view(self.color@[j]));
                }
            }
            i = i + 1;
        }
        proof {
            assert(self@.0 =~= normalized(s)) by {
                lemma_norm_prefix(s, s.len());
                assert forall|j: int| 0 <= j < s.len() implies #[trigger] self@.0[j] == normalized(s)[j] by {}
            }
        }
    }

    /// A color for rendering the node `n` that does not change when the
    /// tiling is renumbered: one more than the first position of a node of
    /// the same color.
    pub fn color_for_rendering(&self, n: &Node) -> (r: Option<Color>)
        requires
            self.wf(),
            self.nodes().contains(*n) && self@.0[self.index(*n)] is Some ==> exists|i: int| 0 <= i < 255 && i < self@.0.len() && #[trigger] self@.0[i] == self@.0[self.index(*n)],
        ensures
            r is Some == (self.nodes().contains(*n) && self@.0[self.index(*n)] is Some),
            r matches Some(k) ==> exists|i: int| 0 <= i < self@.0.len() && k@ == i + 1 && #[trigger] self@.0[i] == self@.0[self.index(*n)]
                && forall|j: int| 0 <= j < i ==> #[trigger] self@.0[j] != self@.0[self.index(*n)],
    {
        proof {
            self.lemma_wf();
        }
        match self.color(n) {
            None => None,
            Some(c) => {
                let ghost target = self@.0[self.index(*n)];
                let mut i: usize = 0;
                while i < self.color.len()
                    invariant
                        i <= self.color@.len(),
                        self.color@.len() == self@.0.len(),
                        target == Some(c@),
                        self.nodes().contains(*n),
                        target == self@.0[self.index(*n)],
                        exists|i2: int| 0 <= i2 < 255 && i2 < self@.0.len() && #[trigger] self@.0[i2] == target,
                        forall|j: int| 0 <= j < i ==> #[trigger] self@.0[j] != target,
                    decreases self.color@.len() - i,
                {
                    proof {
                        assert(self@.0[i as int] == color_view(self.color@[i as int]));
                    }
                    let same = match self.color[i] {
                        Some(d) => d.get() == c.get(),
                        None => false,
                    };
                    if same {
                        proof {
                            assert(self@.0[i as int] == target);
                            assert(i < 255);
                        }
                        return Some(Color::new(i as u8 + 1));
                    }
                    i = i + 1;
                }
                proof {
                    let i2 = choose|i2: int| 0 <= i2 < 255 && i2 < self@.0.len() && #[trigger] self@.0[i2] == target;
                    assert(self@.0[i2] != target);
                }
                None
            },
        }
    }
}

proof fn lemma_insert_prefix_none(g: Seq<Node>, t: TilingView, origin: Node, r: Seq<Node>, k: nat, m: nat)
    requires
        k <= m,
        insert_prefix(g, t, origin, r, k) is None,
    ensures
        insert_prefix(g, t, origin, r, m) is None,
    decreases m - k,
{
    if k < m {
        lemma_insert_prefix_none(g, t, origin, r, k, (m - 1) as nat);
    }
}

proof fn lemma_norm_prefix_mono(s: Coloring, k: nat, m: nat)
    requires
        k <= m <= s.len(),
    ensures
        norm_prefix(s, k).2 <= norm_prefix(s, m).2,
    decreases m - k,
{
    if k < m {
        lemma_norm_prefix_mono(s, k, (m - 1) as nat);
    }
}

/// Order on optional colors: no color first.
pub open spec fn opt_lt(a: Option<u8>, b: Option<u8>) -> bool {
    match (a, b) {
        (None, Some(_)) => true,
        (Some(x), Some(y)) => x < y,
        _ => false,
    }
}

/// Lexicographic order on colorings.
pub open spec fn coloring_lt(a: Coloring, b: Coloring) -> bool
    decreases a.len(),
{
    if a.len() == 0 {
        b.len() > 0
    } else if b.len() == 0 {
        false
    } else if opt_lt(a[0], b[0]) {
        true
    } else if a[0] == b[0] {
        coloring_lt(a.drop_first(), b.drop_first())
    } else {
        false
    }
}

proof fn lemma_coloring_lt_order(a: Coloring, b: Coloring, c: Coloring)
    ensures
        !coloring_lt(a, a),
        coloring_lt(a, b) && coloring_lt(b, c) ==> coloring_lt(a, c),
        a != b ==> coloring_lt(a, b) || coloring_lt(b, a),
    decreases a.len(),
{
    if a.len() > 0 {
        lemma_coloring_lt_order(a.drop_first(), a.drop_first(), a.drop_first());
        if b.len() > 0 && c.len() > 0 {
            lemma_coloring_lt_order(a.drop_first(), b.drop_first(), c.drop_first());
        }
        if b.len() > 0 {
            lemma_coloring_lt_order(a.drop_first(), b.drop_first(), b.drop_first());
            if a != b && a[0] == b[0] {
                assert(a.drop_first() != b.drop_first()) by {
                    if a.drop_first() == b.drop_first() {
                        assert(a =~= b) by {
                            assert forall|k: int| 0 <= k < a.len() implies a[k] == b[k] by {
                                if k > 0 {
                                    assert(a[k] == a.drop_first()[k - 1]);
                                    assert(b[k] == b.drop_first()[k - 1]);
                                }
                            }
                        }
                    }
                }
            }
        }
    } else if b.len() == 0 {
        assert(a =~= b);
    }
}

/// Order on optional nodes: no node first.
pub open spec fn opt_node_lt(a: Option<Node>, b: Option<Node>) -> bool {
    match (a, b) {
        (None, Some(_)) => true,
        (Some(x), Some(y)) => crate::node::node_lt(x, y),
        _ => false,
    }
}

/// Order on tilings of one graph: by coloring, then next uncolored node,
/// then next color.
pub open spec fn tiling_lt(a: TilingView, b: TilingView) -> bool {
    ||| coloring_lt(a.0, b.0)
    ||| (a.0 == b.0 && opt_node_lt(a.1, b.1))
    ||| (a.0 == b.0 && a.1 == b.1 && a.2 < b.2)
}

impl<'g> TotalKey for Tiling<'g> {
    fn copy_key(&self) -> (r: Self) {
        let mut color: Vec<Option<Color>> = Vec::new();
        let mut i: usize = 0;
        while i < self.color.len()
            invariant
                i <= self.color@.len(),
                color@ == self.color@.subrange(0, i as int),
            decreases self.color@.len() - i,
        {
            color.push(self.color[i]);
            i = i + 1;
        }
        proof {
            assert(color@ == self.color@);
        }
        Tiling {
            graph: self.graph,
            color,
            next_uncolored_cell: self.next_uncolored_cell,
            next_color: self.next_color,
        }
    }

    open spec fn key_lt(a: TilingView, b: TilingView) -> bool {
        tiling_lt(a, b)
    }

    proof fn lemma_key_order(a: TilingView, b: TilingView, c: TilingView) {
        lemma_coloring_lt_order(a.0, b.0, c.0);
        lemma_coloring_lt_order(a.0, c.0, b.0);
        lemma_coloring_lt_order(b.0, a.0, c.0);
        lemma_coloring_lt_order(a.0, b.0, a.0);
        if a.1 is Some && b.1 is Some && c.1 is Some {
            crate::node::lemma_node_order(a.1->0, b.1->0, c.1->0);
            crate::node::lemma_node_order(a.1->0, b.1->0, a.1->0);
        }
        if a.1 is Some && b.1 is Some {
            crate::node::lemma_node_order(a.1->0, b.1->0, a.1->0);
        }
    }

    fn order_with(&self, other: &Self) -> (r: KeyOrder) {
        let a = &self.color;
        let b = &other.color;
        let ghost av = self@.0;
        let ghost bv = other@.0;
        let mut i: usize = 0;
        proof {
            assert(av.skip(0) == av);
            assert(bv.skip(0) == bv);
            lemma_coloring_lt_order(av, bv, av);
        }
        let mut res: KeyOrder = KeyOrder::Equal;
        while i < a.len() && i < b.len()
            invariant
                i <= a@.len(),
                i <= b@.len(),
                av == self@.0,
                bv == other@.0,
                a@.len() == av.len(),
                b@.len() == bv.len(),
                forall|j: int| 0 <= j < a@.len() ==> #[trigger] av[j] == color_view(a@[j]),
                forall|j: int| 0 <= j < b@.len() ==> #[trigger] bv[j] == color_view(b@[j]),
                av.subrange(0, i as int) == bv.subrange(0, i as int),
                coloring_lt(av, bv) == coloring_lt(av.skip(i as int), bv.skip(i as int)),
                coloring_lt(bv, av) == coloring_lt(bv.skip(i as int), av.skip(i as int)),
            decreases a@.len() - i,
        {
            let x = match a[i] {
                Some(c) => c.get() as u16,
                None => 0u16,
            };
            let y = match b[i] {
                Some(c) => c.get() as u16,
                None => 0u16,
            };
            proof {
                assert(av.skip(i as int)[0] == av[i as int]);
                assert(bv.skip(i as int)[0] == bv[i as int]);
            }
            if x != y || (a[i].is_none() != b[i].is_none()) {
                proof {
                    assert(av[i as int] != bv[i as int]);
                    assert(av != bv);
                }
                let less = match (a[i], b[i]) {
                    (None, Some(_)) => true,
                    (Some(c), Some(d)) => c.get() < d.get(),
                    _ => false,
                };
                if less {
                    proof {
                        assert(opt_lt(av[i as int], bv[i as int]));
                        assert(coloring_lt(av.skip(i as int), bv.skip(i as int)));
                        lemma_coloring_lt_order(av, bv, av);
                    }
                    return KeyOrder::Less;
                } else {
                    proof {
                        assert(opt_lt(bv[i as int], av[i as int]));
                        assert(coloring_lt(bv.skip(i as int), av.skip(i as int)));
                        lemma_coloring_lt_order(av, bv, av);
                    }
                    return KeyOrder::Greater;
                }
            }
            proof {
                assert(av[i as int] == bv[i as int]);
                assert(av.skip(i as int).drop_first() == av.skip(i + 1));
                assert(bv.skip(i as int).drop_first() == bv.skip(i + 1));
                assert(av.subrange(0, i + 1) == av.subrange(0, i as int).push(av[i as int]));
                assert(bv.subrange(0, i + 1) == bv.subrange(0, i as int).push(bv[i as int]));
            }
            i = i + 1;
        }
        if a.len() != b.len() {
            if a.len() < b.len() {
                proof {
                    assert(av == av.subrange(0, i as int));
                    assert(av != bv);
                    lemma_coloring_lt_order(av, bv, av);
                }
                return KeyOrder::Less;
            } else {
                proof {
                    assert(bv == bv.subrange(0, i as int));
                    assert(av != bv);
                    lemma_coloring_lt_order(av, bv, av);
                }
                return KeyOrder::Greater;
            }
        }
        proof {
            assert(av == av.subrange(0, i as int));
            assert(bv == bv.subrange(0, i as int));
            assert(av == bv);
        }
        let (n1, n2) = (self.next_uncolored_cell, other.next_uncolored_cell);
        let node_ord = match (n1, n2) {
            (None, None) => KeyOrder::Equal,
            (None, Some(_)) => KeyOrder::Less,
            (Some(_), None) => KeyOrder::Greater,
            (Some(p), Some(q)) => {
                proof {
                    crate::node::lemma_node_order(p, q, p);
                }
                if crate::node::node_less(&p, &q) {
                    KeyOrder::Less
                } else if p.0 == q.0 && p.1 == q.1 {
                    KeyOrder::Equal
                } else {
                    KeyOrder::Greater
                }
            },
        };
        match node_ord {
            KeyOrder::Equal => {
                let c1 = self.next_color.get();
                let c2 = other.next_color.get();
                if c1 < c2 {
                    KeyOrder::Less
                } else if c1 == c2 {
                    KeyOrder::Equal
                } else {
                    KeyOrder::Greater
                }
            },
            o => o,
        }
    }
}

/// The coloring uses the color `c`.
pub open spec fn color_used(cs: Coloring, c: u8) -> bool {
    exists|j: int| 0 <= j < cs.len() && cs[j] == Some(c)
}

/// The colors among the first `k` entries of a coloring.
pub open spec fn colors_upto(s: Coloring, k: nat) -> Set<u8> {
    Set::new(|c: u8| exists|j: int| 0 <= j < k && s[j] == Some(c))
}

/// Renumbering maps the colors met so far one to one onto `1 .. next`.
pub proof fn lemma_norm_colors(s: Coloring, k: nat)
    requires
        k <= s.len(),
        s.len() <= 254,
    ensures
        norm_prefix(s, k).1.dom() == colors_upto(s, k),
        norm_prefix(s, k).1.dom().finite(),
        norm_prefix(s, k).1.dom().len() + 1 == norm_prefix(s, k).2,
        forall|c: u8| #[trigger] colors_upto(norm_prefix(s, k).0, k).contains(c) <==> 1 <= c < norm_prefix(s, k).2,
    decreases k,
{
    crate::enumerate::lemma_norm_count(s, k);
    lemma_count_colored_bound(s.subrange(0, k as int));
    lemma_norm_prefix(s, k);
    if k == 0 {
        assert(colors_upto(s, 0) =~= Set::<u8>::empty());
        assert(norm_prefix(s, 0).1.dom() =~= Set::<u8>::empty());
    } else {
        lemma_norm_colors(s, (k - 1) as nat);
        crate::enumerate::lemma_norm_count(s, (k - 1) as nat);
        lemma_count_colored_bound(s.subrange(0, k - 1));
        lemma_norm_prefix(s, (k - 1) as nat);
        let (out, m, next) = norm_prefix(s, (k - 1) as nat);
        let (out2, m2, next2) = norm_prefix(s, k);
        assert(forall|j: int| 0 <= j < k - 1 ==> out2[j] == out[j]);
        match s[k - 1] {
            None => {
                assert(colors_upto(s, k) =~= colors_upto(s, (k - 1) as nat));
                assert(colors_upto(out2, k) =~= colors_upto(out, (k - 1) as nat));
            },
            Some(c) => {
                assert(colors_upto(s, k) =~= colors_upto(s, (k - 1) as nat).insert(c));
                if m.dom().contains(c) {
                    assert(m2.dom() =~= m.dom());
                    assert(colors_upto(s, (k - 1) as nat).insert(c) =~= colors_upto(s, (k - 1) as nat));
                    assert(1 <= m[c] < next);
                    assert(colors_upto(out, (k - 1) as nat).contains(m[c]));
                    assert(colors_upto(out2, k) =~= colors_upto(out, (k - 1) as nat)) by {
                        assert forall|x: u8| #[trigger] colors_upto(out2, k).contains(x) implies colors_upto(out, (k - 1) as nat).contains(x) by {
                            let j = choose|j: int| 0 <= j < k && out2[j] == Some(x);
                            if j == k - 1 {
                                assert(x == m[c]);
                            } else {
                                assert(out[j] == Some(x));
                            }
                        }
                        assert forall|x: u8| #[trigger] colors_upto(out, (k - 1) as nat).contains(x) implies colors_upto(out2, k).contains(x) by {
                            let j = choose|j: int| 0 <= j < k - 1 && out[j] == Some(x);
                            assert(out2[j] == Some(x));
                        }
                    }
                } else {
                    assert(m2.dom() =~= m.dom().insert(c));
                    assert(colors_upto(out2, k) =~= colors_upto(out, (k - 1) as nat).insert(next as u8)) by {
                        assert forall|x: u8| #[trigger] colors_upto(out2, k).contains(x) implies colors_upto(out, (k - 1) as nat).insert(next as u8).contains(x) by {
                            let j = choose|j: int| 0 <= j < k && out2[j] == Some(x);
                            if j < k - 1 {
                                assert(out[j] == Some(x));
                            }
                        }
                        assert forall|x: u8| #[trigger] colors_upto(out, (k - 1) as nat).insert(next as u8).contains(x) implies colors_upto(out2, k).contains(x) by {
                            if x == next as u8 {
                                assert(out2[k - 1] == Some(x));
                            } else {
                                let j = choose|j: int| 0 <= j < k - 1 && out[j] == Some(x);
                                assert(out2[j] == Some(x));
                            }
                        }
                    }
                }
            },
        }
    }
}

/// A coloring whose colors are exactly `1 .. n` keeps them when renumbered,
/// and its uncolored nodes stay uncolored.
pub proof fn lemma_normalized_colors(s: Coloring, n: u8)
    requires
        s.len() <= 254,
        n >= 1,
        forall|j: int| 0 <= j < s.len() ==> (#[trigger] s[j] matches Some(c) ==> 1 <= c < n),
        forall|c: u8| 1 <= c < n ==> #[trigger] color_used(s, c),
    ensures
        normalized(s).len() == s.len(),
        forall|j: int| 0 <= j < s.len() ==> (#[trigger] normalized(s)[j] is Some) == (s[j] is Some),
        forall|j: int| 0 <= j < s.len() ==> (#[trigger] normalized(s)[j] matches Some(c) ==> 1 <= c < n),
        forall|c: u8| 1 <= c < n ==> #[trigger] color_used(normalized(s), c),
{
    let k = s.len();
    lemma_norm_colors(s, k);
    crate::enumerate::lemma_norm_count(s, k);
    lemma_count_colored_bound(s.subrange(0, k as int));
    lemma_norm_prefix(s, k);
    let (out, m, next) = norm_prefix(s, k);
    assert(m.dom() =~= <u8 as vstd::set_lib::FiniteRange>::range_set(1, n)) by {
        assert forall|c: u8| #[trigger] m.dom().contains(c) == (1 <= c < n) by {
            if m.dom().contains(c) {
                assert(colors_upto(s, k).contains(c));
                let j = choose|j: int| 0 <= j < k && s[j] == Some(c);
            }
            if 1 <= c < n {
                assert(color_used(s, c));
                let j = choose|j: int| 0 <= j < s.len() && s[j] == Some(c);
                assert(colors_upto(s, k).contains(c));
            }
        }
    }
    <u8 as vstd::set_lib::FiniteRange>::range_properties(1, n);
    assert(next == n);
    assert forall|j: int| 0 <= j < s.len() implies (#[trigger] out[j] matches Some(c) ==> 1 <= c < n) by {
        if out[j] is Some {
            assert(s[j] is Some);
        }
    }
    assert forall|c: u8| 1 <= c < n implies #[trigger] color_used(out, c) by {
        assert(colors_upto(out, k).contains(c));
        let j = choose|j: int| 0 <= j < k && out[j] == Some(c);
    }
}

/// The coloring `s` with each color `c` replaced by `f(c)`.
pub open spec fn recolored(s: Coloring, f: spec_fn(u8) -> u8) -> Coloring {
    s.map_values(|o: Option<u8>| match o {
        Some(c) => Some(f(c)),
        None => None,
    })
}

proof fn lemma_norm_prefix_recolored(s: Coloring, f: spec_fn(u8) -> u8, k: nat)
    requires
        vstd::relations::injective(f),
        k <= s.len(),
    ensures
        norm_prefix(recolored(s, f), k).0 == norm_prefix(s, k).0,
        norm_prefix(recolored(s, f), k).2 == norm_prefix(s, k).2,
        norm_prefix(recolored(s, f), k).1.dom() == norm_prefix(s, k).1.dom().map(f),
        forall|c: u8| #[trigger] norm_prefix(s, k).1.dom().contains(c) ==> norm_prefix(recolored(s, f), k).1[f(c)] == norm_prefix(s, k).1[c],
    decreases k,
{
    let r = recolored(s, f);
    if k == 0 {
        assert(Map::<u8, u8>::empty().dom().map(f) =~= Set::<u8>::empty());
    } else {
        lemma_norm_prefix_recolored(s, f, (k - 1) as nat);
        let (out, m, next) = norm_prefix(s, (k - 1) as nat);
        let (out2, m2, next2) = norm_prefix(r, (k - 1) as nat);
        match s[k - 1] {
            None => {
                assert(r[k - 1] is None);
            },
            Some(c) => {
                assert(r[k - 1] == Some(f(c)));
                assert(m2.dom().contains(f(c)) == m.dom().contains(c)) by {
                    if m2.dom().contains(f(c)) {
                        let c0 = choose|c0: u8| m.dom().contains(c0) && f(c0) == f(c);
                        assert(c0 == c);
                    }
                    if m.dom().contains(c) {
                        assert(m.dom().map(f).contains(f(c)));
                    }
                }
                if !m.dom().contains(c) {
                    let m_new = m.insert(c, next as u8);
                    let m2_new = m2.insert(f(c), next2 as u8);
                    assert(m2_new.dom() =~= m_new.dom().map(f)) by {
                        assert forall|x: u8| m2_new.dom().contains(x) implies m_new.dom().map(f).contains(x) by {
                            if x != f(c) {
                                let c0 = choose|c0: u8| m.dom().contains(c0) && f(c0) == x;
                                assert(m_new.dom().contains(c0));
                            } else {
                                assert(m_new.dom().contains(c));
                            }
                        }
                        assert forall|x: u8| m_new.dom().map(f).contains(x) implies m2_new.dom().contains(x) by {
                            let c0 = choose|c0: u8| m_new.dom().contains(c0) && f(c0) == x;
                            if c0 != c {
                                assert(m.dom().map(f).contains(x));
                            }
                        }
                    }
                    assert forall|y: u8| #[trigger] m_new.dom().contains(y) implies m2_new[f(y)] == m_new[y] by {
                        if y != c {
                            assert(f(y) != f(c));
                        }
                    }
                }
            },
        }
    }
}

/// Renumbering forgets the names of the colors: a coloring whose colors
/// are renamed one to one is renumbered to the same coloring.
pub proof fn lemma_normalize_renamed(s: Coloring, f: spec_fn(u8) -> u8)
    requires
        vstd::relations::injective(f),
    ensures
        normalized(recolored(s, f)) == normalized(s),
{
    lemma_norm_prefix_recolored(s, f, s.len());
}

/// Number of colored nodes.
pub open spec fn count_colored(c: Coloring) -> nat
    decreases c.len(),
{
    if c.len() == 0 {
        0
    } else {
        count_colored(c.drop_last()) + if c.last() is Some { 1nat } else { 0nat }
    }
}

pub proof fn lemma_count_colored_bound(c: Coloring)
    ensures
        count_colored(c) <= c.len(),
        (exists|i: int| 0 <= i < c.len() && c[i] is None) ==> count_colored(c) < c.len(),
    decreases c.len(),
{
    if c.len() > 0 {
        lemma_count_colored_bound(c.drop_last());
        if exists|i: int| 0 <= i < c.len() && c[i] is None {
            let i = choose|i: int| 0 <= i < c.len() && c[i] is None;
            if i < c.len() - 1 {
                assert(c.drop_last()[i] is None);
            }
        }
    }
}

pub proof fn lemma_count_colored_update(c: Coloring, i: int, x: u8)
    requires
        0 <= i < c.len(),
        c[i] is None,
    ensures
        count_colored(c.update(i, Some(x))) == count_colored(c) + 1,
    decreases c.len(),
{
    if i < c.len() - 1 {
        lemma_count_colored_update(c.drop_last(), i, x);
        assert(c.update(i, Some(x)).drop_last() == c.drop_last().update(i, Some(x)));
    } else {
        assert(c.update(i, Some(x)).drop_last() == c.drop_last());
    }
}

pub proof fn lemma_count_colored_same_pattern(a: Coloring, b: Coloring)
    requires
        a.len() == b.len(),
        forall|i: int| 0 <= i < a.len() ==> (#[trigger] a[i] is Some) == (b[i] is Some),
    ensures
        count_colored(a) == count_colored(b),
    decreases a.len(),
{
    if a.len() > 0 {
        lemma_count_colored_same_pattern(a.drop_last(), b.drop_last());
    }
}

impl<'g> Tiling<'g> {
    /// A copy of the tiling.
    pub fn duplicate(&self) -> (t: Tiling<'g>)
        requires
            self.wf(),
        ensures
            t.wf(),
            t@ == self@,
            t.nodes() == self.nodes(),
    {
        let mut color: Vec<Option<Color>> = Vec::new();
        let mut i: usize = 0;
        while i < self.color.len()
            invariant
                i <= self.color@.len(),
                color@ == self.color@.subrange(0, i as int),
            decreases self.color@.len() - i,
        {
            color.push(self.color[i]);
            i = i + 1;
        }
        proof {
            assert(color@ == self.color@);
        }
        Tiling {
            graph: self.graph,
            color,
            next_uncolored_cell: self.next_uncolored_cell,
            next_color: self.next_color,
        }
    }
}

} // verus!
