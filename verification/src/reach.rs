//! The metagraph of complete tilings: the recombination moves out of a
//! tiling, and the tilings they reach.

use vstd::prelude::*;
use crate::node::{Node, sub_fits, node_lt};
use crate::region::Region;
use crate::lattice::{Graph, node_index, lemma_node_index};
use crate::recomb::{RecombTable, RecombEntry, shift_seq, shift_fits};
use crate::ordset::{key_set, views, is_key_set, insert_key, contains_key};
use crate::sorting::{strictly_sorted_nodes, lemma_strict_implies_sorted};
use crate::tiling::{Tiling, TilingView, Coloring, paint_prefix, color_used, lemma_normalized_colors};
use crate::enumerate::all_of_graph;
use crate::recombine::{splits_cover, negated, spec_try_recombine, repainted, lemma_back_in_graph};

verus! {

/// The nodes of `g` among the first `k` whose color in `cs` is `c`, in
/// order.
pub open spec fn class_upto(cs: Coloring, g: Seq<Node>, c: u8, k: nat) -> Seq<Node>
    decreases k,
{
    if k == 0 {
        Seq::empty()
    } else {
        let s = class_upto(cs, g, c, (k - 1) as nat);
        if cs[k - 1] == Some(c) {
            s.push(g[k - 1])
        } else {
            s
        }
    }
}

/// The tile of color `c` of a tiling of the nodes `g`: its nodes, in
/// increasing order.
pub open spec fn color_class(t: TilingView, g: Seq<Node>, c: u8) -> Seq<Node> {
    class_upto(t.0, g, c, t.0.len())
}

/// A complete tiling whose colors are exactly `1 .. t.2`: every node has one
/// of them, and each of them is used.
pub open spec fn proper(t: TilingView) -> bool {
    &&& t.1 is None
    &&& forall|j: int| 0 <= j < t.0.len() ==> (#[trigger] t.0[j] matches Some(c) && 1 <= c < t.2)
    &&& forall|c: u8| 1 <= c < t.2 ==> #[trigger] color_used(t.0, c)
}

/// The differences of nodes of `g` fit in `i8`, and no coordinate is the
/// least `i8`.
pub open spec fn diffs_fit(g: Seq<Node>) -> bool {
    &&& forall|i: int| 0 <= i < g.len() ==> (#[trigger] g[i]).0 > i8::MIN && g[i].1 > i8::MIN
    &&& forall|i: int, j: int| 0 <= i < g.len() && 0 <= j < g.len() ==> sub_fits(#[trigger] g[i], #[trigger] g[j])
}

/// The splits of the table cover their keys, and their two parts are
/// nonempty and disjoint.
pub open spec fn splits_ok(entries: Set<RecombEntry>) -> bool {
    &&& splits_cover(entries)
    &&& forall|e: RecombEntry| #[trigger] entries.contains(e) ==> e.1.0.len() > 0 && e.1.1.len() > 0
        && e.1.0.to_set().disjoint(e.1.1.to_set())
}

/// The tilings one recombination away from `t`: for each pair of colors
/// `a < b`, the recombinations of the tile of color `a` with that of color
/// `b`.
pub open spec fn spec_tiling_neighbors(g: Seq<Node>, t: TilingView, entries: Set<RecombEntry>) -> Set<TilingView> {
    Set::new(|t2: TilingView| exists|a: u8, b: u8| 1 <= a < b < t.2
        && #[trigger] spec_try_recombine(g, t, entries, color_class(t, g, a), color_class(t, g, b)).contains(t2))
}

/// `x` is one of the first `k` nodes of `g`, with color `c`.
pub open spec fn colored_among(cs: Coloring, g: Seq<Node>, c: u8, k: nat, x: Node) -> bool {
    exists|j: int| 0 <= j < k && cs[j] == Some(c) && g[j] == x
}

/// What the class of the first `k` nodes holds: nodes of color `c`, in
/// increasing order.
pub proof fn lemma_class_upto(cs: Coloring, g: Seq<Node>, c: u8, k: nat)
    requires
        k <= cs.len(),
        cs.len() == g.len(),
        strictly_sorted_nodes(g),
    ensures
        strictly_sorted_nodes(class_upto(cs, g, c, k)),
        forall|i: int| 0 <= i < class_upto(cs, g, c, k).len() ==> colored_among(cs, g, c, k, #[trigger] class_upto(cs, g, c, k)[i]),
        forall|j: int| 0 <= j < k && cs[j] == Some(c) ==> class_upto(cs, g, c, k).contains(#[trigger] g[j]),
        (exists|j: int| 0 <= j < k && cs[j] == Some(c)) ==> class_upto(cs, g, c, k).len() > 0,
    decreases k,
{
    if k > 0 {
        lemma_class_upto(cs, g, c, (k - 1) as nat);
        let s = class_upto(cs, g, c, (k - 1) as nat);
        let s2 = class_upto(cs, g, c, k);
        if cs[k - 1] == Some(c) {
            assert forall|a: int, b: int| 0 <= a < b < s2.len() implies node_lt(#[trigger] s2[a], #[trigger] s2[b]) by {
                if b == s.len() {
                    assert(colored_among(cs, g, c, (k - 1) as nat, s[a]));
                    let j = choose|j: int| 0 <= j < k - 1 && cs[j] == Some(c) && g[j] == s[a];
                    assert(node_lt(g[j], g[k - 1]));
                } else {
                    assert(s2[a] == s[a] && s2[b] == s[b]);
                }
            }
            assert forall|i: int| 0 <= i < s2.len() implies colored_among(cs, g, c, k, #[trigger] s2[i]) by {
                if i < s.len() {
                    assert(s2[i] == s[i]);
                    assert(colored_among(cs, g, c, (k - 1) as nat, s[i]));
                    let j = choose|j: int| 0 <= j < k - 1 && cs[j] == Some(c) && g[j] == s[i];
                } else {
                    assert(s2[i] == g[k - 1]);
                }
            }
            assert forall|j: int| 0 <= j < k && cs[j] == Some(c) implies s2.contains(#[trigger] g[j]) by {
                if j < k - 1 {
                    let i = choose|i: int| 0 <= i < s.len() && s[i] == g[j];
                    assert(s2[i] == g[j]);
                } else {
                    assert(s2[s.len() as int] == g[j]);
                }
            }
        } else {
            assert forall|j: int| 0 <= j < k && cs[j] == Some(c) implies s2.contains(#[trigger] g[j]) by {
                assert(j < k - 1);
            }
            assert forall|i: int| 0 <= i < s2.len() implies colored_among(cs, g, c, k, #[trigger] s2[i]) by {
                assert(colored_among(cs, g, c, (k - 1) as nat, s[i]));
                let j = choose|j: int| 0 <= j < k - 1 && cs[j] == Some(c) && g[j] == s[i];
            }
            if exists|j: int| 0 <= j < k && cs[j] == Some(c) {
                let j = choose|j: int| 0 <= j < k && cs[j] == Some(c);
                assert(s.contains(g[j]));
            }
        }
    }
}

impl<'g> Tiling<'g> {
    /// The tile of color `c`: the nodes of that color, in increasing order.
    pub fn color_region(&self, c: u8) -> (r: Region)
        requires
            self.wf(),
            strictly_sorted_nodes(self.nodes()),
        ensures
            r.wf(),
            r@ == color_class(self@, self.nodes(), c),
            strictly_sorted_nodes(r@),
    {
        proof {
            self.lemma_wf();
            self.lemma_graph();
        }
        let g = self.graph();
        let mut v: Vec<Node> = Vec::new();
        let mut j: usize = 0;
        while j < self.len()
            invariant
                j <= self@.0.len(),
                self.wf(),
                g@ == self.nodes(),
                self@.0.len() == self.nodes().len(),
                strictly_sorted_nodes(self.nodes()),
                v@ == class_upto(self@.0, self.nodes(), c, j as nat),
            decreases self@.0.len() - j,
        {
            match self.color_at(j) {
                Some(k) => {
                    if k.get() == c {
                        v.push(g.node_at(j));
                    }
                },
                None => {},
            }
            j = j + 1;
        }
        proof {
            lemma_class_upto(self@.0, self.nodes(), c, self@.0.len());
            lemma_strict_implies_sorted(v@);
        }
        Region::from_sorted(v)
    }
}

/// The recombinations of the pairs of colors `a < b` met before the pair
/// `(i + 1, j + 1)`, in the order of the scan over `b`, then `a`.
pub open spec fn pairs_upto(g: Seq<Node>, t: TilingView, entries: Set<RecombEntry>, i: int, j: int) -> Set<TilingView> {
    Set::new(|t2: TilingView| exists|a: u8, b: u8| 1 <= a < b < t.2 && (b - 1 < i || (b - 1 == i && a - 1 < j))
        && #[trigger] spec_try_recombine(g, t, entries, color_class(t, g, a), color_class(t, g, b)).contains(t2))
}

/// Moves the tilings of `rs` into the key set `res`.
pub(crate) fn insert_all<'g>(res: &mut Vec<Tiling<'g>>, rs: Vec<Tiling<'g>>, Ghost(g): Ghost<Seq<Node>>)
    requires
        is_key_set(old(res)@),
        all_of_graph(old(res)@, g),
        all_of_graph(rs@, g),
    ensures
        is_key_set(final(res)@),
        all_of_graph(final(res)@, g),
        key_set(final(res)@) == key_set(old(res)@) + views(rs@).to_set(),
{
    let mut rs = rs;
    let ghost all = views(rs@).to_set();
    while rs.len() > 0
        invariant
            is_key_set(res@),
            all_of_graph(res@, g),
            all_of_graph(rs@, g),
            key_set(res@) + views(rs@).to_set() == key_set(old(res)@) + all,
        decreases rs@.len(),
    {
        let ghost before = rs@;
        let ghost res_before = res@;
        let t = rs.pop().unwrap();
        proof {
            assert(before == rs@.push(t));
            assert(views(before) == views(rs@).push(t@));
            views(rs@).lemma_push_to_set_commute(t@);
            assert(before[before.len() - 1] == t);
            assert forall|j: int| 0 <= j < rs@.len() implies (#[trigger] rs@[j]).wf() && rs@[j].nodes() == g by {
                assert(rs@[j] == before[j]);
            }
        }
        insert_key(res, t);
        proof {
            assert forall|j: int| 0 <= j < res@.len() implies (#[trigger] res@[j]).wf() && res@[j].nodes() == g by {
                if res@[j] != t {
                    let l = choose|l: int| 0 <= l < res_before.len() && res_before[l] == res@[j];
                }
            }
            assert(key_set(res@) + views(rs@).to_set() =~= key_set(old(res)@) + all);
        }
    }
    proof {
        assert(views(rs@).to_set() =~= Set::<TilingView>::empty());
        assert(key_set(res@) =~= key_set(old(res)@) + all);
    }
}

impl<'g> Tiling<'g> {
    /// The tilings one recombination away from this one: for each pair of
    /// tiles, every other split of their union into two tiles found in the
    /// table.
    pub fn neighbors(&self, recomb: &RecombTable) -> (res: Vec<Tiling<'g>>)
        requires
            self.wf(),
            proper(self@),
            self.nodes().len() <= 254,
            strictly_sorted_nodes(self.nodes()),
            diffs_fit(self.nodes()),
            recomb.wf(),
            splits_ok(recomb.entries()),
        ensures
            is_key_set(res@),
            all_of_graph(res@, self.nodes()),
            key_set(res@) == spec_tiling_neighbors(self.nodes(), self@, recomb.entries()),
            forall|t2: TilingView| #[trigger] key_set(res@).contains(t2) ==> proper(t2) && t2.0.len() == self@.0.len() && t2.2 == self@.2,
    {
        proof {
            self.lemma_wf();
            self.lemma_graph();
            lemma_node_index(self.nodes());
            lemma_strict_implies_sorted(self.nodes());
            assert(self.nodes().no_duplicates()) by {
                assert forall|i: int, j: int| 0 <= i < self.nodes().len() && 0 <= j < self.nodes().len() && i != j
                    implies self.nodes()[i] != self.nodes()[j] by {
                    if i < j {
                        assert(node_lt(self.nodes()[i], self.nodes()[j]));
                    } else {
                        assert(node_lt(self.nodes()[j], self.nodes()[i]));
                    }
                }
            }
        }
        let ghost g = self.nodes();
        let ghost t = self@;
        let ghost ns = self.nodes();
        let n_colors: u8 = self.next_color().get() - 1;
        let mut classes: Vec<Region> = Vec::new();
        let mut c: u8 = 1;
        while c <= n_colors
            invariant
                1 <= c <= n_colors + 1,
                n_colors == t.2 - 1,
                t == self@,
                ns == self.nodes(),
                self.wf(),
                strictly_sorted_nodes(ns),
                classes@.len() == c - 1,
                forall|i: int| 0 <= i < classes@.len() ==> (#[trigger] classes@[i]).wf()
                    && classes@[i]@ == color_class(t, ns, (i + 1) as u8),
            decreases n_colors + 1 - c,
        {
            let r = self.color_region(c);
            classes.push(r);
            c = c + 1;
        }
        let mut res: Vec<Tiling<'g>> = Vec::new();
        let mut i: usize = 0;
        proof {
            assert(pairs_upto(g, t, recomb.entries(), 0, 0) =~= Set::<TilingView>::empty());
        }
        while i < classes.len()
            invariant
                i <= classes@.len(),
                classes@.len() == t.2 - 1,
                t == self@,
                ns == self.nodes(),
                g == self.nodes(),
                g == ns,
                self.wf(),
                proper(t),
                ns.len() <= 254,
                strictly_sorted_nodes(ns),
                ns.no_duplicates(),
                diffs_fit(ns),
                recomb.wf(),
                splits_ok(recomb.entries()),
                forall|l: int| 0 <= l < classes@.len() ==> (#[trigger] classes@[l]).wf()
                    && classes@[l]@ == color_class(t, ns, (l + 1) as u8),
                is_key_set(res@),
                all_of_graph(res@, g),
                key_set(res@) == pairs_upto(g, t, recomb.entries(), i as int, 0),
            decreases classes@.len() - i,
        {
            let mut j: usize = 0;
            while j < i
                invariant
                    j <= i < classes@.len(),
                    classes@.len() == t.2 - 1,
                    t == self@,
                    ns == self.nodes(),
                    g == self.nodes(),
                    g == ns,
                    self.wf(),
                    proper(t),
                    ns.len() <= 254,
                    strictly_sorted_nodes(ns),
                    ns.no_duplicates(),
                    diffs_fit(ns),
                    recomb.wf(),
                    splits_ok(recomb.entries()),
                    forall|l: int| 0 <= l < classes@.len() ==> (#[trigger] classes@[l]).wf()
                        && classes@[l]@ == color_class(t, ns, (l + 1) as u8),
                    is_key_set(res@),
                    all_of_graph(res@, g),
                    key_set(res@) == pairs_upto(g, t, recomb.entries(), i as int, j as int),
                decreases i - j,
            {
                let ghost a = (j + 1) as u8;
                let ghost b = (i + 1) as u8;
                proof {
                    lemma_class_ok(self, a);
                    lemma_class_ok(self, b);
                    assert(classes@[j as int]@ == color_class(t, ns, a));
                    assert(classes@[i as int]@ == color_class(t, ns, b));
                }
                let rs = self.try_recombine(recomb, &classes[j], &classes[i]);
                let ghost before = key_set(res@);
                insert_all(&mut res, rs, Ghost(g));
                proof {
                    assert(key_set(res@) =~= pairs_upto(g, t, recomb.entries(), i as int, j + 1)) by {
                        assert forall|t2: TilingView| #[trigger] key_set(res@).contains(t2)
                            == pairs_upto(g, t, recomb.entries(), i as int, j + 1).contains(t2) by {
                            if pairs_upto(g, t, recomb.entries(), i as int, j + 1).contains(t2) {
                                let (a2, b2) = choose|a2: u8, b2: u8| 1 <= a2 < b2 < t.2 && (b2 - 1 < i || (b2 - 1 == i && a2 - 1 < j + 1))
                                    && #[trigger] spec_try_recombine(g, t, recomb.entries(), color_class(t, g, a2), color_class(t, g, b2)).contains(t2);
                                if !(a2 == a && b2 == b) {
                                    assert(pairs_upto(g, t, recomb.entries(), i as int, j as int).contains(t2));
                                }
                            }
                            if before.contains(t2) {
                                let (a2, b2) = choose|a2: u8, b2: u8| 1 <= a2 < b2 < t.2 && (b2 - 1 < i || (b2 - 1 == i && a2 - 1 < j))
                                    && #[trigger] spec_try_recombine(g, t, recomb.entries(), color_class(t, g, a2), color_class(t, g, b2)).contains(t2);
                            }
                        }
                    }
                }
                j = j + 1;
            }
            proof {
                assert(pairs_upto(g, t, recomb.entries(), i as int, i as int) =~= pairs_upto(g, t, recomb.entries(), i + 1, 0)) by {
                    assert forall|t2: TilingView| #[trigger] pairs_upto(g, t, recomb.entries(), i as int, i as int).contains(t2)
                        == pairs_upto(g, t, recomb.entries(), i + 1, 0).contains(t2) by {
                        if pairs_upto(g, t, recomb.entries(), i + 1, 0).contains(t2) {
                            let (a2, b2) = choose|a2: u8, b2: u8| 1 <= a2 < b2 < t.2 && (b2 - 1 < i + 1 || (b2 - 1 == i + 1 && a2 - 1 < 0))
                                && #[trigger] spec_try_recombine(g, t, recomb.entries(), color_class(t, g, a2), color_class(t, g, b2)).contains(t2);
                        }
                    }
                }
            }
            i = i + 1;
        }
        proof {
            assert(pairs_upto(g, t, recomb.entries(), i as int, 0) =~= spec_tiling_neighbors(g, t, recomb.entries())) by {
                assert forall|t2: TilingView| #[trigger] pairs_upto(g, t, recomb.entries(), i as int, 0).contains(t2)
                    == spec_tiling_neighbors(g, t, recomb.entries()).contains(t2) by {
                    if spec_tiling_neighbors(g, t, recomb.entries()).contains(t2) {
                        let (a2, b2) = choose|a2: u8, b2: u8| 1 <= a2 < b2 < t.2
                            && #[trigger] spec_try_recombine(g, t, recomb.entries(), color_class(t, g, a2), color_class(t, g, b2)).contains(t2);
                    }
                }
            }
            assert forall|t2: TilingView| #[trigger] key_set(res@).contains(t2) implies proper(t2) && t2.0.len() == t.0.len() && t2.2 == t.2 by {
                lemma_neighbor_proper(g, t, recomb.entries(), t2);
            }
        }
        res
    }
}

/// The tile of a used color meets what a recombination asks of it.
proof fn lemma_class_facts(g: Seq<Node>, t: TilingView, a: u8)
    requires
        g.len() <= usize::MAX,
        t.0.len() == g.len(),
        proper(t),
        1 <= a < t.2,
        strictly_sorted_nodes(g),
        g.no_duplicates(),
        diffs_fit(g),
    ensures
        ({
            let r = color_class(t, g, a);
            &&& r.len() > 0
            &&& crate::sorting::sorted_nodes(r)
            &&& strictly_sorted_nodes(r)
            &&& forall|i: int| 0 <= i < r.len() ==> g.contains(#[trigger] r[i]) && t.0[node_index(g, r[i]) as int] == Some(a)
            &&& t.0[node_index(g, r[0]) as int] == Some(a)
            &&& r[0].0 > i8::MIN
            &&& r[0].1 > i8::MIN
            &&& forall|o: Node| #[trigger] g.contains(o) ==> shift_fits(negated(o), r)
        }),
{
    let ns = g;
    let r = color_class(t, ns, a);
    lemma_node_index(g);
    lemma_class_upto(t.0, ns, a, t.0.len());
    assert(color_used(t.0, a));
    lemma_strict_implies_sorted(r);
    assert forall|i: int| 0 <= i < r.len() implies ns.contains(#[trigger] r[i]) && t.0[node_index(g, r[i]) as int] == Some(a) by {
        assert(colored_among(t.0, ns, a, t.0.len(), r[i]));
        let j = choose|j: int| 0 <= j < t.0.len() && t.0[j] == Some(a) && ns[j] == r[i];
        assert(node_index(g, ns[j]) == j);
    }
    assert(ns.contains(r[0]));
    let j0 = choose|j: int| 0 <= j < ns.len() && ns[j] == r[0];
    assert(ns[j0].0 > i8::MIN && ns[j0].1 > i8::MIN);
    assert forall|o: Node| #[trigger] ns.contains(o) implies shift_fits(negated(o), r) by {
        let io = choose|io: int| 0 <= io < ns.len() && ns[io] == o;
        assert(ns[io].0 > i8::MIN && ns[io].1 > i8::MIN);
        assert forall|i: int| 0 <= i < r.len() implies crate::node::add_fits(#[trigger] r[i], negated(o)) by {
            assert(ns.contains(r[i]));
            let ir = choose|ir: int| 0 <= ir < ns.len() && ns[ir] == r[i];
            assert(sub_fits(ns[ir], ns[io]));
        }
    }
}

/// The tile of a used color of a tiling meets what a recombination asks of
/// it.
proof fn lemma_class_ok<'g>(t: &Tiling<'g>, a: u8)
    requires
        t.wf(),
        proper(t@),
        1 <= a < t@.2,
        strictly_sorted_nodes(t.nodes()),
        t.nodes().no_duplicates(),
        diffs_fit(t.nodes()),
    ensures
        ({
            let r = color_class(t@, t.nodes(), a);
            &&& r.len() > 0
            &&& crate::sorting::sorted_nodes(r)
            &&& forall|i: int| 0 <= i < r.len() ==> t.nodes().contains(#[trigger] r[i])
            &&& t@.0[t.index(r[0])] == Some(a)
            &&& r[0].0 > i8::MIN
            &&& r[0].1 > i8::MIN
            &&& forall|o: Node| #[trigger] t.nodes().contains(o) ==> shift_fits(negated(o), r)
        }),
{
    t.lemma_wf();
    t.lemma_graph();
    lemma_class_facts(t.nodes(), t@, a);
    let r = color_class(t@, t.nodes(), a);
    assert forall|i: int| 0 <= i < r.len() implies t.nodes().contains(#[trigger] r[i]) by {
        assert(t.nodes().contains(r[i]));
    }
    assert forall|o: Node| #[trigger] t.nodes().contains(o) implies shift_fits(negated(o), r) by {
        assert(t.nodes().contains(o));
    }
}

/// Painting keeps the shape of the tiling, gives the painted nodes the
/// color, and leaves the other nodes as they were.
proof fn lemma_paint_prefix(g: Seq<Node>, t: TilingView, r: Seq<Node>, col: u8, k: nat)
    requires
        g.len() <= usize::MAX,
        k <= r.len(),
        t.0.len() == g.len(),
        t.1 is None,
        forall|m: int| 0 <= m < k ==> g.contains(#[trigger] r[m]),
    ensures
        paint_prefix(g, t, r, col, k).0.len() == t.0.len(),
        paint_prefix(g, t, r, col, k).1 is None,
        paint_prefix(g, t, r, col, k).2 == t.2,
        forall|m: int| 0 <= m < k ==> paint_prefix(g, t, r, col, k).0[node_index(g, #[trigger] r[m]) as int] == Some(col),
        forall|x: int| 0 <= x < t.0.len() ==> #[trigger] paint_prefix(g, t, r, col, k).0[x] == t.0[x]
            || (paint_prefix(g, t, r, col, k).0[x] == Some(col) && exists|m: int| 0 <= m < k && node_index(g, r[m]) == x),
    decreases k,
{
    lemma_node_index(g);
    if k > 0 {
        lemma_paint_prefix(g, t, r, col, (k - 1) as nat);
        let p = paint_prefix(g, t, r, col, (k - 1) as nat);
        let p2 = paint_prefix(g, t, r, col, k);
        let i = node_index(g, r[k - 1]) as int;
        assert(g.contains(r[k - 1]));
        assert(p2.0 == p.0.update(i, Some(col)));
        assert forall|m: int| 0 <= m < k implies p2.0[node_index(g, #[trigger] r[m]) as int] == Some(col) by {
            if m < k - 1 && node_index(g, r[m]) as int != i {
                assert(g.contains(r[m]));
            }
        }
        assert forall|x: int| 0 <= x < t.0.len() implies #[trigger] p2.0[x] == t.0[x]
            || (p2.0[x] == Some(col) && exists|m: int| 0 <= m < k && node_index(g, r[m]) == x) by {
            if x == i {
                assert(node_index(g, r[k - 1]) == x);
            } else {
                assert(p2.0[x] == p.0[x]);
                if p.0[x] != t.0[x] {
                    let m = choose|m: int| 0 <= m < k - 1 && node_index(g, r[m]) == x;
                }
            }
        }
    }
}

/// A recombination of a proper tiling is proper, with as many nodes and the
/// same next color.
pub proof fn lemma_recombined_proper(g: Seq<Node>, t: TilingView, entries: Set<RecombEntry>, a: u8, b: u8, t2: TilingView)
    requires
        g.len() <= usize::MAX,
        t.0.len() == g.len(),
        g.len() <= 254,
        proper(t),
        1 <= a < b < t.2,
        strictly_sorted_nodes(g),
        g.no_duplicates(),
        diffs_fit(g),
        splits_ok(entries),
        spec_try_recombine(g, t, entries, color_class(t, g, a), color_class(t, g, b)).contains(t2),
    ensures
        proper(t2),
        t2.0.len() == t.0.len(),
        t2.2 == t.2,
{
    lemma_node_index(g);
    let r1 = color_class(t, g, a);
    let r2 = color_class(t, g, b);
    lemma_class_facts(g, t, a);
    lemma_class_facts(g, t, b);
    let o = r1[0];
    let c1 = t.0[node_index(g, r1[0]) as int]->0;
    let c2 = t.0[node_index(g, r2[0]) as int]->0;
    assert(c1 == a && c2 == b);
    let key = shift_seq(negated(o), r1).to_set() + shift_seq(negated(o), r2).to_set();
    let (k, p) = choose|k: Seq<Node>, p: (Seq<Node>, Seq<Node>)| strictly_sorted_nodes(k) && k.to_set() == key
        && #[trigger] entries.contains((k, p)) && t2 == repainted(g, t, o, c1, c2, p);
    assert(entries.contains((k, p)));
    assert(k.to_set() == p.0.to_set() + p.1.to_set());
    assert(p.0.to_set().subset_of(key));
    assert(p.1.to_set().subset_of(key));
    assert(g.contains(r1[0]));
    lemma_back_in_graph(g, o, r1, r2, p.0, key);
    lemma_back_in_graph(g, o, r1, r2, p.1, key);
    let s1 = shift_seq(o, p.0);
    let s2 = shift_seq(o, p.1);
    let q1 = paint_prefix(g, t, s1, c1, s1.len());
    lemma_paint_prefix(g, t, s1, c1, s1.len());
    let q2 = paint_prefix(g, q1, s2, c2, s2.len());
    lemma_paint_prefix(g, q1, s2, c2, s2.len());
    // a painted node keeps one of the two colors it had
    assert forall|m: int| 0 <= m < s1.len() implies #[trigger] t.0[node_index(g, s1[m]) as int] == Some(a)
        || t.0[node_index(g, s1[m]) as int] == Some(b) by {
        if r1.contains(s1[m]) {
            let i = choose|i: int| 0 <= i < r1.len() && r1[i] == s1[m];
        } else {
            let i = choose|i: int| 0 <= i < r2.len() && r2[i] == s1[m];
        }
    }
    assert forall|m: int| 0 <= m < s2.len() implies #[trigger] t.0[node_index(g, s2[m]) as int] == Some(a)
        || t.0[node_index(g, s2[m]) as int] == Some(b) by {
        if r1.contains(s2[m]) {
            let i = choose|i: int| 0 <= i < r1.len() && r1[i] == s2[m];
        } else {
            let i = choose|i: int| 0 <= i < r2.len() && r2[i] == s2[m];
        }
    }
    assert forall|j: int| 0 <= j < q2.0.len() implies (#[trigger] q2.0[j] matches Some(c) && 1 <= c < t.2) by {
        assert(q1.0[j] == t.0[j] || q1.0[j] == Some(a));
        assert(q2.0[j] == q1.0[j] || q2.0[j] == Some(b));
    }
    assert forall|c: u8| 1 <= c < t.2 implies #[trigger] color_used(q2.0, c) by {
        if c == b {
            assert(g.contains(s2[0]));
            assert(q2.0[node_index(g, s2[0]) as int] == Some(b));
        } else if c == a {
            assert(g.contains(s1[0]));
            let x = node_index(g, s1[0]) as int;
            assert(q1.0[x] == Some(a));
            if q2.0[x] != q1.0[x] {
                let m = choose|m: int| 0 <= m < s2.len() && node_index(g, s2[m]) == x;
                assert(g.contains(s2[m]));
                assert(s2[m] == s1[0]);
                crate::node::lemma_add_injective(p.1[m], p.0[0], o);
                assert(p.0.to_set().contains(p.0[0]));
                assert(p.1.to_set().contains(p.1[m]));
            }
            assert(q2.0[x] == Some(a));
        } else {
            assert(color_used(t.0, c));
            let x = choose|x: int| 0 <= x < t.0.len() && t.0[x] == Some(c);
            if q1.0[x] != t.0[x] {
                let m = choose|m: int| 0 <= m < s1.len() && node_index(g, s1[m]) == x;
                assert(t.0[node_index(g, s1[m]) as int] == Some(a) || t.0[node_index(g, s1[m]) as int] == Some(b));
            }
            if q2.0[x] != q1.0[x] {
                let m = choose|m: int| 0 <= m < s2.len() && node_index(g, s2[m]) == x;
                assert(t.0[node_index(g, s2[m]) as int] == Some(a) || t.0[node_index(g, s2[m]) as int] == Some(b));
            }
            assert(q2.0[x] == Some(c));
        }
    }
    lemma_normalized_colors(q2.0, t.2);
    assert forall|j: int| 0 <= j < t2.0.len() implies (#[trigger] t2.0[j] matches Some(c) && 1 <= c < t.2) by {
        assert(q2.0[j] is Some);
    }
}

/// A neighbour of a proper tiling is proper, with as many nodes and the
/// same next color.
pub proof fn lemma_neighbor_proper(g: Seq<Node>, t: TilingView, entries: Set<RecombEntry>, t2: TilingView)
    requires
        g.len() <= usize::MAX,
        t.0.len() == g.len(),
        g.len() <= 254,
        proper(t),
        strictly_sorted_nodes(g),
        g.no_duplicates(),
        diffs_fit(g),
        splits_ok(entries),
        spec_tiling_neighbors(g, t, entries).contains(t2),
    ensures
        proper(t2),
        t2.0.len() == t.0.len(),
        t2.2 == t.2,
{
    let (a, b) = choose|a: u8, b: u8| 1 <= a < b < t.2
        && #[trigger] spec_try_recombine(g, t, entries, color_class(t, g, a), color_class(t, g, b)).contains(t2);
    lemma_recombined_proper(g, t, entries, a, b, t2);
}

/// The splits of the recombinations of regions of size `n` cover their keys
/// with two nonempty disjoint parts.
pub proof fn lemma_recomb_splits_ok(n: nat)
    requires
        n >= 1,
    ensures
        splits_ok(crate::recomb::spec_recomb(n)),
{
    crate::polyhex::lemma_spec_regions(n);
    let es = crate::recomb::spec_recomb(n);
    assert forall|e: RecombEntry| #[trigger] es.contains(e) implies e.1.0.len() > 0 && e.1.1.len() > 0
        && e.1.0.to_set().disjoint(e.1.1.to_set()) && e.0.to_set() == e.1.0.to_set() + e.1.1.to_set() by {
        let r2 = choose|r2: Seq<Node>| #[trigger] crate::polyhex::spec_regions(n).contains(r2) && crate::polyhex::spec_regions(n).contains(e.1.0)
            && crate::recomb::pair_entries(n, e.1.0, r2, crate::recomb::offsets(e.1.0, r2)).contains(e);
        let o = choose|o: Node| #[trigger] crate::recomb::offsets(e.1.0, r2).contains(o) && crate::recomb::recomb_entry(n, e, r2, o);
        let a = e.1.0.to_set();
        let b = e.1.1.to_set();
        lemma_strict_no_duplicates(e.0);
        lemma_strict_no_duplicates(e.1.0);
        e.0.unique_seq_to_set();
        e.1.0.unique_seq_to_set();
        e.1.1.lemma_cardinality_of_set();
        vstd::set_lib::lemma_set_intersect_union_lens(a, b);
        if !a.disjoint(b) {
            let x = choose|x: Node| a.contains(x) && b.contains(x);
            assert((a * b).contains(x));
            assert((a * b).len() > 0) by {
                vstd::set_lib::lemma_set_empty_equivalency_len(a * b);
            }
        }
    }
}

/// A strictly sorted sequence has no node twice.
pub proof fn lemma_strict_no_duplicates(s: Seq<Node>)
    requires
        strictly_sorted_nodes(s),
    ensures
        s.no_duplicates(),
{
    assert forall|i: int, j: int| 0 <= i < s.len() && 0 <= j < s.len() && i != j implies s[i] != s[j] by {
        if i < j {
            assert(node_lt(s[i], s[j]));
        } else {
            assert(node_lt(s[j], s[i]));
        }
    }
}

/// The tilings reached from `t` in at most `d` recombination moves.
pub open spec fn reach_within(g: Seq<Node>, t: TilingView, entries: Set<RecombEntry>, d: nat) -> Set<TilingView>
    decreases d,
{
    if d == 0 {
        set![t]
    } else {
        let w = reach_within(g, t, entries, (d - 1) as nat);
        w + Set::new(|y: TilingView| exists|x: TilingView| w.contains(x) && #[trigger] spec_tiling_neighbors(g, x, entries).contains(y))
    }
}

/// The tilings reached from `t` by recombination moves: its connected
/// component in the metagraph.
pub open spec fn spec_reachable(g: Seq<Node>, t: TilingView, entries: Set<RecombEntry>) -> Set<TilingView> {
    Set::new(|y: TilingView| exists|d: nat| #[trigger] reach_within(g, t, entries, d).contains(y))
}

/// A tiling reaches itself.
pub proof fn lemma_reachable_contains_start(g: Seq<Node>, t: TilingView, entries: Set<RecombEntry>)
    ensures
        spec_reachable(g, t, entries).contains(t),
{
    assert(reach_within(g, t, entries, 0).contains(t));
}

/// What a tiling reaches is closed under recombination moves.
pub proof fn lemma_reachable_closed(g: Seq<Node>, t: TilingView, entries: Set<RecombEntry>, u: TilingView, y: TilingView)
    requires
        spec_reachable(g, t, entries).contains(u),
        spec_tiling_neighbors(g, u, entries).contains(y),
    ensures
        spec_reachable(g, t, entries).contains(y),
{
    let d = choose|d: nat| #[trigger] reach_within(g, t, entries, d).contains(u);
    assert(reach_within(g, t, entries, d + 1).contains(y));
}

proof fn lemma_within_reachable(g: Seq<Node>, t: TilingView, entries: Set<RecombEntry>, u: TilingView, v: TilingView, d: nat)
    requires
        spec_reachable(g, t, entries).contains(u),
        reach_within(g, u, entries, d).contains(v),
    ensures
        spec_reachable(g, t, entries).contains(v),
    decreases d,
{
    if d > 0 {
        let w = reach_within(g, u, entries, (d - 1) as nat);
        if w.contains(v) {
            lemma_within_reachable(g, t, entries, u, v, (d - 1) as nat);
        } else {
            let x = choose|x: TilingView| w.contains(x) && #[trigger] spec_tiling_neighbors(g, x, entries).contains(v);
            lemma_within_reachable(g, t, entries, u, x, (d - 1) as nat);
            lemma_reachable_closed(g, t, entries, x, v);
        }
    }
}

/// Reaching is transitive: what a reached tiling reaches is reached too.
pub proof fn lemma_reachable_transitive(g: Seq<Node>, t: TilingView, entries: Set<RecombEntry>, u: TilingView, v: TilingView)
    requires
        spec_reachable(g, t, entries).contains(u),
        spec_reachable(g, u, entries).contains(v),
    ensures
        spec_reachable(g, t, entries).contains(v),
{
    let d = choose|d: nat| #[trigger] reach_within(g, u, entries, d).contains(v);
    lemma_within_reachable(g, t, entries, u, v, d);
}

/// What a tiling reaches holds the tiling itself, is closed under
/// recombination moves, and holds all that any of its members reaches.
pub proof fn lemma_reachable_class(g: Seq<Node>, t: TilingView, entries: Set<RecombEntry>)
    ensures
        spec_reachable(g, t, entries).contains(t),
        forall|u: TilingView, y: TilingView| #[trigger] spec_reachable(g, t, entries).contains(u)
            && #[trigger] spec_tiling_neighbors(g, u, entries).contains(y) ==> spec_reachable(g, t, entries).contains(y),
        forall|u: TilingView| #[trigger] spec_reachable(g, t, entries).contains(u)
            ==> spec_reachable(g, u, entries).subset_of(spec_reachable(g, t, entries)),
{
    lemma_reachable_contains_start(g, t, entries);
    assert forall|u: TilingView, y: TilingView| #[trigger] spec_reachable(g, t, entries).contains(u)
        && #[trigger] spec_tiling_neighbors(g, u, entries).contains(y) implies spec_reachable(g, t, entries).contains(y) by {
        lemma_reachable_closed(g, t, entries, u, y);
    }
    assert forall|u: TilingView| #[trigger] spec_reachable(g, t, entries).contains(u)
        implies spec_reachable(g, u, entries).subset_of(spec_reachable(g, t, entries)) by {
        assert forall|v: TilingView| spec_reachable(g, u, entries).contains(v) implies spec_reachable(g, t, entries).contains(v) by {
            lemma_reachable_transitive(g, t, entries, u, v);
        }
    }
}

/// A set that holds `t` and is closed under moves holds all that `t`
/// reaches.
proof fn lemma_within_closed(g: Seq<Node>, t: TilingView, entries: Set<RecombEntry>, v: Set<TilingView>, d: nat)
    requires
        v.contains(t),
        forall|x: TilingView, y: TilingView| v.contains(x) && #[trigger] spec_tiling_neighbors(g, x, entries).contains(y) ==> v.contains(y),
    ensures
        reach_within(g, t, entries, d).subset_of(v),
    decreases d,
{
    if d > 0 {
        lemma_within_closed(g, t, entries, v, (d - 1) as nat);
    }
}

/// The code of an optional color: 0 for none, one more than the color
/// otherwise.
pub open spec fn opt_code(c: Option<u8>) -> int {
    match c {
        None => 0,
        Some(x) => x + 1,
    }
}

/// A coloring read as a number in base 257.
pub open spec fn coloring_code(s: Coloring) -> int
    decreases s.len(),
{
    if s.len() == 0 {
        0
    } else {
        opt_code(s.last()) + 257 * coloring_code(s.drop_last())
    }
}

pub open spec fn pow257(n: nat) -> int
    decreases n,
{
    if n == 0 {
        1
    } else {
        257 * pow257((n - 1) as nat)
    }
}

proof fn lemma_code_range(s: Coloring)
    ensures
        0 <= coloring_code(s) < pow257(s.len()),
    decreases s.len(),
{
    if s.len() > 0 {
        lemma_code_range(s.drop_last());
        let x = coloring_code(s.drop_last());
        let p = pow257(s.drop_last().len());
        let oc = opt_code(s.last());
        assert(0 <= oc + 257 * x < 257 * p) by (nonlinear_arith)
            requires
                0 <= x < p,
                0 <= oc <= 256,
        ;
    }
}

proof fn lemma_code_injective(a: Coloring, b: Coloring)
    requires
        a.len() == b.len(),
        coloring_code(a) == coloring_code(b),
    ensures
        a == b,
    decreases a.len(),
{
    if a.len() == 0 {
        assert(a =~= b);
    } else {
        lemma_code_range(a.drop_last());
        lemma_code_range(b.drop_last());
        let x = coloring_code(a.drop_last());
        let y = coloring_code(b.drop_last());
        let oa = opt_code(a.last());
        let ob = opt_code(b.last());
        assert(oa == ob && x == y) by (nonlinear_arith)
            requires
                oa + 257 * x == ob + 257 * y,
                0 <= oa <= 256,
                0 <= ob <= 256,
                0 <= x,
                0 <= y,
        ;
        assert(a.last() == b.last());
        lemma_code_injective(a.drop_last(), b.drop_last());
        assert(a =~= a.drop_last().push(a.last()));
        assert(b =~= b.drop_last().push(b.last()));
    }
}

/// Complete tilings of `l` nodes with the same next color are at most
/// `257` to the power `l`.
proof fn lemma_views_bound(vs: Set<TilingView>, l: nat, n: u8)
    requires
        vs.finite(),
        forall|x: TilingView| #[trigger] vs.contains(x) ==> x.0.len() == l && x.1 is None && x.2 == n,
    ensures
        vs.len() <= pow257(l),
{
    let f = |x: TilingView| coloring_code(x.0);
    assert(vstd::relations::injective_on(f, vs)) by {
        assert forall|x1: TilingView, x2: TilingView| vs.contains(x1) && vs.contains(x2) && #[trigger] f(x1) == #[trigger] f(x2) implies x1 == x2 by {
            lemma_code_injective(x1.0, x2.0);
        }
    }
    let img = vs.map(f);
    vstd::set_lib::lemma_map_size(vs, img, f);
    lemma_code_range(Seq::<Option<u8>>::empty());
    assert(pow257(l) >= 1) by {
        lemma_pow_pos(l);
    }
    vstd::set_lib::lemma_int_range(0, pow257(l));
    assert forall|c: int| #[trigger] img.contains(c) implies vstd::set_lib::set_int_range(0, pow257(l)).contains(c) by {
        let x = choose|x: TilingView| vs.contains(x) && f(x) == c;
        lemma_code_range(x.0);
    }
    vstd::set_lib::lemma_len_subset(img, vstd::set_lib::set_int_range(0, pow257(l)));
}

proof fn lemma_pow_pos(n: nat)
    ensures
        pow257(n) >= 1,
    decreases n,
{
    if n > 0 {
        lemma_pow_pos((n - 1) as nat);
    }
}

/// The tilings one move away from one of the tilings `f`, that are in
/// neither `v` nor `f`, from the first `a` tilings of `f`.
pub open spec fn fresh_upto(g: Seq<Node>, entries: Set<RecombEntry>, f: Seq<TilingView>, a: int, v: Set<TilingView>) -> Set<TilingView> {
    Set::new(|y: TilingView| (exists|i: int| 0 <= i < a && #[trigger] spec_tiling_neighbors(g, f[i], entries).contains(y))
        && !v.contains(y) && !f.to_set().contains(y))
}

/// The shape shared by the tilings met in a search from a proper tiling.
pub open spec fn same_shape(x: TilingView, l: nat, n: u8) -> bool {
    &&& proper(x)
    &&& x.0.len() == l
    &&& x.2 == n
}

impl<'g> Tiling<'g> {
    /// The tilings reached from this one by recombinations of tiles of size
    /// `k`: its connected component in the metagraph.
    pub fn reachable(&self, k: usize) -> (res: Vec<Tiling<'g>>)
        requires
            self.wf(),
            proper(self@),
            1 <= k <= 20,
            (self@.2 - 1) * k == self@.0.len(),
            self.nodes().len() <= 254,
            strictly_sorted_nodes(self.nodes()),
            diffs_fit(self.nodes()),
        ensures
            is_key_set(res@),
            all_of_graph(res@, self.nodes()),
            key_set(res@) == spec_reachable(self.nodes(), self@, crate::recomb::spec_recomb(k as nat)),
    {
        let table = crate::recomb::recomb(k);
        proof {
            lemma_recomb_splits_ok(k as nat);
            self.lemma_wf();
            self.lemma_graph();
            lemma_strict_no_duplicates(self.nodes());
        }
        let ghost g = self.nodes();
        let ghost entries = table.entries();
        let ghost t0 = self@;
        let ghost l = t0.0.len();
        let ghost n = t0.2;
        let mut visited: Vec<Tiling<'g>> = Vec::new();
        let mut frontier: Vec<Tiling<'g>> = Vec::new();
        frontier.push(self.duplicate());
        let ghost mut d: nat = 0;
        proof {
            assert(views(frontier@) =~= seq![t0]);
            assert(key_set(frontier@) =~= set![t0]) by {
                assert(views(frontier@)[0] == t0);
            }
            assert(key_set(visited@) =~= Set::<TilingView>::empty());
            assert(key_set(visited@) + key_set(frontier@) =~= reach_within(g, t0, entries, 0));
        }
        while frontier.len() > 0
            invariant
                g == self.nodes(),
                g.len() <= usize::MAX,
                g == self.nodes(),
                g.len() <= 254,
                g.len() == l,
                strictly_sorted_nodes(g),
                g.no_duplicates(),
                diffs_fit(g),
                table.wf(),
                entries == table.entries(),
                entries == crate::recomb::spec_recomb(k as nat),
                splits_ok(entries),
                is_key_set(visited@),
                is_key_set(frontier@),
                all_of_graph(visited@, g),
                all_of_graph(frontier@, g),
                key_set(visited@).disjoint(key_set(frontier@)),
                key_set(visited@) + key_set(frontier@) == reach_within(g, t0, entries, d),
                forall|x: TilingView, y: TilingView| key_set(visited@).contains(x) && #[trigger] spec_tiling_neighbors(g, x, entries).contains(y)
                    ==> reach_within(g, t0, entries, d).contains(y),
                forall|x: TilingView| #[trigger] reach_within(g, t0, entries, d).contains(x) ==> same_shape(x, l, n),
            decreases pow257(l) - key_set(visited@).len(),
        {
            proof {
                assert forall|x: TilingView| #[trigger] key_set(visited@).contains(x) implies x.0.len() == l && x.1 is None && x.2 == n by {
                    assert(reach_within(g, t0, entries, d).contains(x));
                }
                lemma_views_bound(key_set(visited@), l, n);
            }
            let ghost fv = views(frontier@);
            let ghost vset = key_set(visited@);
            let mut next: Vec<Tiling<'g>> = Vec::new();
            let mut a: usize = 0;
            proof {
                assert(key_set(next@) =~= fresh_upto(g, entries, fv, 0, vset));
            }
            while a < frontier.len()
                invariant
                    a <= frontier@.len(),
                    fv == views(frontier@),
                    vset == key_set(visited@),
                    g == self.nodes(),
                    g.len() <= usize::MAX,
                    g.len() <= 254,
                    g.len() == l,
                    strictly_sorted_nodes(g),
                    g.no_duplicates(),
                    diffs_fit(g),
                    table.wf(),
                    entries == table.entries(),
                    splits_ok(entries),
                    is_key_set(visited@),
                    is_key_set(frontier@),
                    all_of_graph(frontier@, g),
                    key_set(visited@) + key_set(frontier@) == reach_within(g, t0, entries, d),
                    forall|x: TilingView| #[trigger] reach_within(g, t0, entries, d).contains(x) ==> same_shape(x, l, n),
                    is_key_set(next@),
                    all_of_graph(next@, g),
                    key_set(next@) == fresh_upto(g, entries, fv, a as int, vset),
                decreases frontier@.len() - a,
            {
                let x = &frontier[a];
                proof {
                    assert(fv[a as int] == x@);
                    assert(key_set(frontier@).contains(x@));
                    assert(reach_within(g, t0, entries, d).contains(x@));
                    assert(same_shape(x@, l, n));
                    assert(x.wf() && x.nodes() == g);
                    x.lemma_graph();
                }
                let nbrs = x.neighbors(&table);
                let mut q: usize = 0;
                while q < nbrs.len()
                    invariant
                        q <= nbrs@.len(),
                        a < frontier@.len(),
                        fv == views(frontier@),
                        vset == key_set(visited@),
                        fv[a as int] == x@,
                        is_key_set(visited@),
                        is_key_set(frontier@),
                        is_key_set(nbrs@),
                        all_of_graph(nbrs@, g),
                        key_set(nbrs@) == spec_tiling_neighbors(g, x@, entries),
                        is_key_set(next@),
                        all_of_graph(next@, g),
                        key_set(next@) == fresh_upto(g, entries, fv, a as int, vset)
                            + Set::new(|y: TilingView| views(nbrs@).subrange(0, q as int).to_set().contains(y) && !vset.contains(y) && !fv.to_set().contains(y)),
                    decreases nbrs@.len() - q,
                {
                    let y = &nbrs[q];
                    proof {
                        assert(views(nbrs@).subrange(0, q + 1) == views(nbrs@).subrange(0, q as int).push(y@));
                        views(nbrs@).subrange(0, q as int).lemma_push_to_set_commute(y@);
                        assert(views(nbrs@)[q as int] == y@);
                    }
                    if !contains_key(&visited, y) && !contains_key(&frontier, y) {
                        let ghost before = next@;
                        let y2 = y.duplicate();
                        insert_key(&mut next, y2);
                        proof {
                            assert forall|j: int| 0 <= j < next@.len() implies (#[trigger] next@[j]).wf() && next@[j].nodes() == g by {
                                if next@[j] != y2 {
                                    let l2 = choose|l2: int| 0 <= l2 < before.len() && before[l2] == next@[j];
                                }
                            }
                        }
                    }
                    proof {
                        assert(key_set(next@) =~= fresh_upto(g, entries, fv, a as int, vset)
                            + Set::new(|z: TilingView| views(nbrs@).subrange(0, q + 1).to_set().contains(z) && !vset.contains(z) && !fv.to_set().contains(z)));
                    }
                    q = q + 1;
                }
                proof {
                    assert(views(nbrs@).subrange(0, nbrs@.len() as int) == views(nbrs@));
                    assert(key_set(next@) =~= fresh_upto(g, entries, fv, a + 1, vset)) by {
                        assert forall|z: TilingView| #[trigger] key_set(next@).contains(z) == fresh_upto(g, entries, fv, a + 1, vset).contains(z) by {
                            if fresh_upto(g, entries, fv, a + 1, vset).contains(z) {
                                let i = choose|i: int| 0 <= i < a + 1 && #[trigger] spec_tiling_neighbors(g, fv[i], entries).contains(z);
                                if i < a {
                                    assert(fresh_upto(g, entries, fv, a as int, vset).contains(z));
                                } else {
                                    assert(key_set(nbrs@).contains(z));
                                }
                            }
                            if key_set(next@).contains(z) && !fresh_upto(g, entries, fv, a as int, vset).contains(z) {
                                assert(key_set(nbrs@).contains(z));
                                assert(spec_tiling_neighbors(g, fv[a as int], entries).contains(z));
                            }
                            if fresh_upto(g, entries, fv, a as int, vset).contains(z) {
                                let i = choose|i: int| 0 <= i < a && #[trigger] spec_tiling_neighbors(g, fv[i], entries).contains(z);
                            }
                        }
                    }
                }
                a = a + 1;
            }
            let ghost fset = key_set(frontier@);
            let ghost nset = key_set(next@);
            insert_all(&mut visited, frontier, Ghost(g));
            frontier = next;
            proof {
                let w = reach_within(g, t0, entries, d);
                let w2 = reach_within(g, t0, entries, d + 1);
                assert(fv.to_set() == fset);
                assert(key_set(visited@) == vset + fset);
                assert(nset =~= Set::new(|y: TilingView| (exists|i: int| 0 <= i < fv.len() && #[trigger] spec_tiling_neighbors(g, fv[i], entries).contains(y))
                    && !vset.contains(y) && !fset.contains(y)));
                assert(w2 =~= key_set(visited@) + key_set(frontier@)) by {
                    assert forall|y: TilingView| #[trigger] w2.contains(y) == (key_set(visited@) + key_set(frontier@)).contains(y) by {
                        if w2.contains(y) && !w.contains(y) {
                            let x = choose|x: TilingView| w.contains(x) && #[trigger] spec_tiling_neighbors(g, x, entries).contains(y);
                            if vset.contains(x) {
                                assert(w.contains(y));
                            } else {
                                assert(fset.contains(x));
                                let i = choose|i: int| 0 <= i < fv.len() && fv[i] == x;
                                assert(spec_tiling_neighbors(g, fv[i], entries).contains(y));
                            }
                        }
                        if nset.contains(y) {
                            let i = choose|i: int| 0 <= i < fv.len() && #[trigger] spec_tiling_neighbors(g, fv[i], entries).contains(y);
                            assert(fset.contains(fv[i]));
                            assert(w.contains(fv[i]));
                        }
                    }
                }
                assert(key_set(visited@).disjoint(key_set(frontier@)));
                assert forall|x: TilingView, y: TilingView| key_set(visited@).contains(x) && #[trigger] spec_tiling_neighbors(g, x, entries).contains(y)
                    implies w2.contains(y) by {
                    assert(w.contains(x));
                }
                assert forall|x: TilingView| #[trigger] w2.contains(x) implies same_shape(x, l, n) by {
                    if !w.contains(x) {
                        let x0 = choose|x0: TilingView| w.contains(x0) && #[trigger] spec_tiling_neighbors(g, x0, entries).contains(x);
                        assert(same_shape(x0, l, n));
                        lemma_neighbor_proper(g, x0, entries, x);
                    }
                }
                assert(fset.len() > 0) by {
                    assert(fv.len() > 0);
                    assert(fset.contains(fv[0]));
                }
                vstd::set_lib::lemma_set_disjoint_lens(vset, fset);
                assert forall|x: TilingView| #[trigger] key_set(visited@).contains(x) implies x.0.len() == l && x.1 is None && x.2 == n by {
                    assert(w.contains(x));
                }
                lemma_views_bound(key_set(visited@), l, n);
                d = d + 1;
            }
        }
        proof {
            let w = reach_within(g, t0, entries, d);
            assert(key_set(frontier@) =~= Set::<TilingView>::empty()) by {
                assert(views(frontier@).len() == 0);
            }
            assert(key_set(visited@) =~= w);
            assert(w.contains(t0)) by {
                lemma_within_has_start(g, t0, entries, d);
            }
            assert(key_set(visited@) =~= spec_reachable(g, t0, entries)) by {
                assert forall|y: TilingView| #[trigger] spec_reachable(g, t0, entries).contains(y) implies key_set(visited@).contains(y) by {
                    let e = choose|e: nat| #[trigger] reach_within(g, t0, entries, e).contains(y);
                    lemma_within_closed(g, t0, entries, key_set(visited@), e);
                }
                assert forall|y: TilingView| #[trigger] key_set(visited@).contains(y) implies spec_reachable(g, t0, entries).contains(y) by {
                    assert(reach_within(g, t0, entries, d).contains(y));
                }
            }
        }
        visited
    }
}

proof fn lemma_within_has_start(g: Seq<Node>, t: TilingView, entries: Set<RecombEntry>, d: nat)
    ensures
        reach_within(g, t, entries, d).contains(t),
    decreases d,
{
    if d > 0 {
        lemma_within_has_start(g, t, entries, (d - 1) as nat);
    }
}

/// A complete tiling that the enumeration reaches is proper, and its tiles
/// have `r` nodes each.
pub proof fn lemma_complete_proper(g: Seq<Node>, r: nat, t: TilingView)
    requires
        g.len() <= usize::MAX,
        strictly_sorted_nodes(g),
        0 < g.len() <= 254,
        r >= 1,
        crate::enumerate::spec_enumerate(g, r).contains(t),
        t.1 is None,
    ensures
        proper(t),
        (t.2 - 1) * r == t.0.len(),
        t.0.len() == g.len(),
{
    let d = choose|d: nat| #[trigger] crate::enumerate::enum_level(g, crate::polyhex::spec_regions(r), d).contains(t);
    crate::enumerate::lemma_enum_level_ok(g, r, d);
    crate::enumerate::lemma_nuf_shape(t.0, g, 0);
    assert forall|j: int| 0 <= j < t.0.len() implies (#[trigger] t.0[j] matches Some(c) && 1 <= c < t.2) by {
        assert(t.0[j] is Some);
    }
    lemma_all_colored_count(t.0);
}

/// A coloring with every node colored has every node counted.
proof fn lemma_all_colored_count(c: Coloring)
    requires
        forall|j: int| 0 <= j < c.len() ==> #[trigger] c[j] is Some,
    ensures
        crate::tiling::count_colored(c) == c.len(),
    decreases c.len(),
{
    if c.len() > 0 {
        assert forall|j: int| 0 <= j < c.drop_last().len() implies #[trigger] c.drop_last()[j] is Some by {
            assert(c[j] is Some);
        }
        lemma_all_colored_count(c.drop_last());
        assert(c[c.len() - 1] is Some);
    }
}

} // verus!
