//! Enumeration of the partial tilings of a graph.

use vstd::prelude::*;
use crate::node::{Node, add_fits, spec_add};
use crate::lattice::{Graph, node_index, lemma_node_index};
use crate::region::Region;
use crate::polyhex::{spec_regions, regions, bounded, lemma_spec_regions, all_strict};
use crate::ordset::{TotalKey, is_key_set, key_set, views, insert_key};
use crate::sorting::{strictly_sorted_nodes, lemma_strict_implies_sorted};
use crate::tiling::{
    Tiling, TilingView, Coloring, spec_try_insert, insert_prefix, spec_set_color, normalized,
    norm_prefix, color_count, count_colored, next_uncolored_from, lemma_count_colored_update,
    lemma_count_colored_bound, lemma_count_colored_same_pattern, color_used, lemma_normalized_colors,
};

verus! {

/// The tiling of `g` with no colored node.
pub open spec fn initial_view(g: Seq<Node>) -> TilingView {
    (Seq::new(g.len(), |i: int| None::<u8>), Some(g[0]), 1u8)
}

/// `t2` follows `t` in the enumeration: a tile of `tiles`, translated to the
/// next uncolored node of `t`, is placed, and the colors are renumbered.
pub open spec fn enum_step(g: Seq<Node>, tiles: Set<Seq<Node>>, t: TilingView, t2: TilingView) -> bool {
    &&& t.1 is Some
    &&& exists|tile: Seq<Node>| #[trigger] tiles.contains(tile) && placed(g, t, tile, t2)
}

/// `t` with its colors renumbered.
pub open spec fn renumbered(t: TilingView) -> TilingView {
    (normalized(t.0), t.1, t.2)
}

/// `t` with `tile` placed at its next uncolored node, before renumbering.
pub open spec fn inserted(g: Seq<Node>, t: TilingView, tile: Seq<Node>) -> TilingView {
    spec_try_insert(g, t, t.1->0, tile)->0
}

/// `t2` is `t` with `tile` placed at its next uncolored node, renumbered.
pub open spec fn placed(g: Seq<Node>, t: TilingView, tile: Seq<Node>, t2: TilingView) -> bool {
    &&& t.1 is Some
    &&& spec_try_insert(g, t, t.1->0, tile) is Some
    &&& t2 == renumbered(inserted(g, t, tile))
}

/// The tilings reached from the empty tiling of `g` in `k` steps.
pub open spec fn enum_level(g: Seq<Node>, tiles: Set<Seq<Node>>, k: nat) -> Set<TilingView>
    decreases k,
{
    if k == 0 {
        set![initial_view(g)]
    } else {
        Set::new(|t2: TilingView| exists|t: TilingView| enum_level(g, tiles, (k - 1) as nat).contains(t) && #[trigger] enum_step(g, tiles, t, t2))
    }
}

/// All partial tilings of `g` by tiles of size `r` that the enumeration
/// reaches: from the empty tiling, a tile is placed at the first uncolored
/// node, and the colors are renumbered in order of appearance.
pub open spec fn spec_enumerate(g: Seq<Node>, r: nat) -> Set<TilingView> {
    Set::new(|t: TilingView| exists|k: nat| #[trigger] enum_level(g, spec_regions(r), k).contains(t))
}

/// Every node of `g` leaves room to place a tile of size `r` at it.
pub open spec fn room_for_tiles(g: Seq<Node>, r: nat) -> bool {
    forall|i: int| 0 <= i < g.len() ==> #[trigger] g[i].0 + r <= 128 && g[i].1 - 2 * r >= -129 && g[i].1 + 2 * r <= 128
}

/// The invariant of the views met at depth `d` of the enumeration.
pub open spec fn level_ok(g: Seq<Node>, t: TilingView, d: nat, r: nat) -> bool {
    &&& t.0.len() == g.len()
    &&& count_colored(t.0) == d * r
    &&& t.2 == d + 1
    &&& t.1 matches Some(n) ==> g.contains(n) && t.0[node_index(g, n) as int] is None
    &&& forall|i: int| 0 <= i < t.0.len() ==> (#[trigger] t.0[i] matches Some(c) ==> 1 <= c < t.2)
    &&& forall|c: u8| 1 <= c < t.2 ==> #[trigger] color_used(t.0, c)
    &&& t.1 == next_uncolored_from(t.0, g, 0)
}

/// Where the search for the next uncolored node from `p` ends: nowhere when
/// all nodes from `p` on are colored, else at the first uncolored one.
pub proof fn lemma_nuf_shape(c: Coloring, g: Seq<Node>, p: int)
    requires
        c.len() == g.len(),
        0 <= p,
    ensures
        (next_uncolored_from(c, g, p) is None) == (forall|j: int| p <= j < c.len() ==> #[trigger] c[j] is Some),
        next_uncolored_from(c, g, p) matches Some(x) ==> exists|q: int| p <= q < c.len() && c[q] is None && g[q] == x
            && (forall|j: int| p <= j < q ==> #[trigger] c[j] is Some),
    decreases c.len() - p,
{
    if p < c.len() {
        lemma_nuf_shape(c, g, p + 1);
        if c[p] is None {
            assert(next_uncolored_from(c, g, p) == Some(g[p]));
        } else {
            if next_uncolored_from(c, g, p) is Some {
                let x = next_uncolored_from(c, g, p)->0;
                let q = choose|q: int| p + 1 <= q < c.len() && c[q] is None && g[q] == x
                    && (forall|j: int| p + 1 <= j < q ==> #[trigger] c[j] is Some);
                assert(forall|j: int| p <= j < q ==> #[trigger] c[j] is Some);
            }
        }
    }
}

/// The search skips colored nodes.
proof fn lemma_nuf_skip(c: Coloring, g: Seq<Node>, p: int, i: int)
    requires
        0 <= p <= i,
        forall|j: int| p <= j < i ==> #[trigger] c[j] is Some,
    ensures
        next_uncolored_from(c, g, p) == next_uncolored_from(c, g, i),
    decreases i - p,
{
    if p < i {
        lemma_nuf_skip(c, g, p + 1, i);
    }
}

/// The search only depends on which nodes are colored.
proof fn lemma_nuf_pattern(c1: Coloring, c2: Coloring, g: Seq<Node>, p: int)
    requires
        c1.len() == c2.len(),
        forall|j: int| 0 <= j < c1.len() ==> (#[trigger] c1[j] is Some) == (c2[j] is Some),
    ensures
        next_uncolored_from(c1, g, p) == next_uncolored_from(c2, g, p),
    decreases c1.len() - p,
{
    if 0 <= p < c1.len() {
        lemma_nuf_pattern(c1, c2, g, p + 1);
    }
}

/// Coloring an uncolored node keeps the next uncolored node the first
/// uncolored node.
proof fn lemma_set_color_nuf(c: Coloring, t1: Option<Node>, g: Seq<Node>, i: int, node: Node, col: u8)
    requires
        c.len() == g.len(),
        g.no_duplicates(),
        0 <= i < c.len(),
        g[i] == node,
        c[i] is None,
        t1 == next_uncolored_from(c, g, 0),
    ensures
        (if t1 == Some(node) { next_uncolored_from(c.update(i, Some(col)), g, i) } else { t1 })
            == next_uncolored_from(c.update(i, Some(col)), g, 0),
{
    let c2 = c.update(i, Some(col));
    lemma_nuf_shape(c, g, 0);
    let x = t1->0;
    let q = choose|q: int| 0 <= q < c.len() && c[q] is None && g[q] == x && (forall|j: int| 0 <= j < q ==> #[trigger] c[j] is Some);
    if t1 == Some(node) {
        assert(q == i);
        assert forall|j: int| 0 <= j < i implies #[trigger] c2[j] is Some by {
            assert(c[j] is Some);
        }
        lemma_nuf_skip(c2, g, 0, i);
    } else {
        assert(q != i);
        assert(q < i);
        assert forall|j: int| 0 <= j < q implies #[trigger] c2[j] is Some by {
            assert(c[j] is Some);
        }
        lemma_nuf_skip(c2, g, 0, q);
        assert(c2[q] is None);
    }
}

proof fn lemma_next_uncolored_from(c: Coloring, g: Seq<Node>, p: int)
    requires
        c.len() == g.len(),
        0 <= p,
    ensures
        next_uncolored_from(c, g, p) matches Some(x) ==> exists|q: int| p <= q < c.len() && c[q] is None && #[trigger] g[q] == x,
    decreases c.len() - p,
{
    if p < c.len() && c[p] is Some {
        lemma_next_uncolored_from(c, g, p + 1);
    }
}

proof fn lemma_insert_prefix_ok(g: Seq<Node>, t: TilingView, origin: Node, tile: Seq<Node>, k: nat, d: nat, r: nat)
    requires
        g.len() <= usize::MAX,
        strictly_sorted_nodes(g),
        level_ok(g, t, d, r),
        k <= tile.len(),
        t.2 != 0,
        insert_prefix(g, t, origin, tile, k) is Some,
    ensures
        ({
            let t1 = insert_prefix(g, t, origin, tile, k)->0;
            &&& t1.0.len() == t.0.len()
            &&& count_colored(t1.0) == count_colored(t.0) + k
            &&& t1.2 == t.2
            &&& t1.1 matches Some(n) ==> g.contains(n) && t1.0[node_index(g, n) as int] is None
            &&& forall|i: int| 0 <= i < t1.0.len() ==> (#[trigger] t1.0[i] matches Some(c) ==> 1 <= c <= t.2)
            &&& forall|i: int| 0 <= i < t1.0.len() && t.0[i] is Some ==> #[trigger] t1.0[i] == t.0[i]
            &&& forall|c: u8| 1 <= c < t.2 ==> #[trigger] color_used(t1.0, c)
            &&& k > 0 ==> color_used(t1.0, t.2)
            &&& t1.1 == next_uncolored_from(t1.0, g, 0)
        }),
    decreases k,
{
    lemma_node_index(g);
    lemma_strict_implies_sorted(g);
    if k > 0 {
        lemma_insert_prefix_ok(g, t, origin, tile, (k - 1) as nat, d, r);
        let t1 = insert_prefix(g, t, origin, tile, (k - 1) as nat)->0;
        let node = spec_add(origin, tile[k - 1]);
        let i = node_index(g, node) as int;
        let t2 = insert_prefix(g, t, origin, tile, k)->0;
        assert(t2 == spec_set_color(t1, g, i, node, t.2));
        lemma_count_colored_update(t1.0, i, t.2);
        let c2 = t1.0.update(i, Some(t.2));
        if t1.1 == Some(node) {
            lemma_next_uncolored_from(c2, g, i);
            if t2.1 is Some {
                let q = choose|q: int| i <= q < c2.len() && c2[q] is None && #[trigger] g[q] == t2.1->0;
                assert(node_index(g, g[q]) == q);
            }
        } else if t1.1 is Some {
            let m = t1.1->0;
            assert(g[node_index(g, m) as int] == m);
            assert(node_index(g, m) as int != i);
        }
        assert forall|j: int| 0 <= j < t2.0.len() implies (#[trigger] t2.0[j] matches Some(c) ==> 1 <= c <= t.2) by {
            if j != i {
                assert(t2.0[j] == t1.0[j]);
            }
        }
        assert forall|j: int| 0 <= j < t2.0.len() && t.0[j] is Some implies #[trigger] t2.0[j] == t.0[j] by {
            assert(t1.0[j] == t.0[j]);
        }
        assert forall|c: u8| 1 <= c < t.2 implies #[trigger] color_used(t2.0, c) by {
            assert(color_used(t1.0, c));
            let x = choose|x: int| 0 <= x < t1.0.len() && t1.0[x] == Some(c);
            assert(t2.0[x] == t1.0[x]);
        }
        assert(t2.0[i] == Some(t.2));
        lemma_strict_no_dups(g);
        assert(g.contains(node));
        lemma_set_color_nuf(t1.0, t1.1, g, i, node, t.2);
    } else {
        assert(insert_prefix(g, t, origin, tile, 0) == Some(t));
    }
}

/// A strictly sorted sequence has no node twice.
proof fn lemma_strict_no_dups(s: Seq<Node>)
    requires
        strictly_sorted_nodes(s),
    ensures
        s.no_duplicates(),
{
    assert forall|i: int, j: int| 0 <= i < s.len() && 0 <= j < s.len() && i != j implies s[i] != s[j] by {
        if i < j {
            assert(crate::node::node_lt(s[i], s[j]));
        } else {
            assert(crate::node::node_lt(s[j], s[i]));
        }
    }
}

pub(crate) proof fn lemma_norm_count(s: Coloring, k: nat)
    requires
        k <= s.len(),
    ensures
        norm_prefix(s, k).2 <= count_colored(s.subrange(0, k as int)) + 1,
    decreases k,
{
    if k > 0 {
        lemma_norm_count(s, (k - 1) as nat);
        assert(s.subrange(0, k as int).drop_last() == s.subrange(0, k - 1));
    }
}

proof fn lemma_norm_prefix_pattern(s: Coloring, k: nat)
    requires
        k <= s.len(),
        norm_prefix(s, k).2 <= 256,
    ensures
        norm_prefix(s, k).0.len() == k,
        forall|i: int| 0 <= i < k ==> (#[trigger] norm_prefix(s, k).0[i] is Some) == (s[i] is Some),
        forall|i: int| 0 <= i < k ==> (#[trigger] norm_prefix(s, k).0[i] matches Some(c) ==> c != 0),
    decreases k,
{
    if k > 0 {
        assert(norm_prefix(s, (k - 1) as nat).2 <= norm_prefix(s, k).2);
        lemma_norm_prefix_pattern(s, (k - 1) as nat);
        let (out, m, next) = norm_prefix(s, (k - 1) as nat);
        assert(next >= 1) by {
            lemma_norm_next_pos(s, (k - 1) as nat);
        }
        assert(forall|c: u8| #[trigger] m.dom().contains(c) ==> m[c] != 0) by {
            lemma_norm_values(s, (k - 1) as nat);
        }
    }
}

pub(crate) proof fn lemma_norm_next_pos(s: Coloring, k: nat)
    ensures
        norm_prefix(s, k).2 >= 1,
    decreases k,
{
    if k > 0 {
        lemma_norm_next_pos(s, (k - 1) as nat);
    }
}

proof fn lemma_norm_values(s: Coloring, k: nat)
    requires
        norm_prefix(s, k).2 <= 256,
    ensures
        forall|c: u8| #[trigger] norm_prefix(s, k).1.dom().contains(c) ==> norm_prefix(s, k).1[c] != 0,
    decreases k,
{
    if k > 0 {
        assert(norm_prefix(s, (k - 1) as nat).2 <= norm_prefix(s, k).2);
        lemma_norm_values(s, (k - 1) as nat);
        lemma_norm_next_pos(s, (k - 1) as nat);
    }
}

/// A placed-and-renumbered tiling keeps the invariant one level deeper.
proof fn lemma_placed_ok(g: Seq<Node>, t: TilingView, tile: Seq<Node>, d: nat, r: nat)
    requires
        g.len() <= usize::MAX,
        strictly_sorted_nodes(g),
        g.len() <= 254,
        level_ok(g, t, d, r),
        tile.len() == r,
        r >= 1,
        t.1 is Some,
        spec_try_insert(g, t, t.1->0, tile) is Some,
    ensures
        color_count(inserted(g, t, tile).0) < 255,
        level_ok(g, renumbered(inserted(g, t, tile)), d + 1, r),
{
    lemma_insert_prefix_ok(g, t, t.1->0, tile, tile.len(), d, r);
    let t1 = inserted(g, t, tile);
    let ip = insert_prefix(g, t, t.1->0, tile, tile.len())->0;
    assert(t1.0 == ip.0 && t1.1 == ip.1 && t1.2 == (ip.2 + 1) as u8);
    let s = t1.0;
    lemma_node_index(g);
    lemma_count_colored_bound(s);
    lemma_norm_count(s, s.len());
    assert(s.subrange(0, s.len() as int) == s);
    assert(s.len() == g.len());
    assert(count_colored(s) <= 254);
    assert(norm_prefix(s, s.len()).2 <= 255);
    lemma_norm_next_pos(s, s.len());
    assert(color_count(s) < 255);
    lemma_norm_prefix_pattern(s, s.len());
    lemma_count_colored_same_pattern(normalized(s), s);
    assert((d + 1) * r == d * r + r) by (nonlinear_arith);
    assert(d + 1 <= (d + 1) * r) by (nonlinear_arith)
        requires
            r >= 1,
    ;
    let t2 = renumbered(t1);
    if t2.1 is Some {
        let n = t2.1->0;
        assert(s[node_index(g, n) as int] is None);
        assert(normalized(s)[node_index(g, n) as int] is None);
    }
    let n0 = t.1->0;
    assert(t.0[node_index(g, n0) as int] is None);
    lemma_count_colored_bound(t.0);
    assert(d * r < 254);
    assert(d <= d * r) by (nonlinear_arith)
        requires
            r >= 1,
    ;
    let n2 = (t.2 + 1) as u8;
    assert(n2 == d + 2);
    assert forall|j: int| 0 <= j < s.len() implies (#[trigger] s[j] matches Some(c) ==> 1 <= c < n2) by {
        assert(ip.0[j] == s[j]);
    }
    assert forall|c: u8| 1 <= c < n2 implies #[trigger] color_used(s, c) by {
        if c < t.2 {
            assert(color_used(ip.0, c));
        } else {
            assert(color_used(ip.0, t.2));
        }
    }
    lemma_normalized_colors(s, n2);
    lemma_nuf_pattern(normalized(s), s, g, 0);
}

/// Every tiling that the enumeration reaches in `d` steps holds `d` tiles of
/// `r` nodes, colored `1` to `d`, each color used, and its next uncolored
/// node is its first uncolored node.
pub proof fn lemma_enum_level_ok(g: Seq<Node>, r: nat, d: nat)
    requires
        g.len() <= usize::MAX,
        strictly_sorted_nodes(g),
        0 < g.len() <= 254,
        r >= 1,
    ensures
        forall|t: TilingView| #[trigger] enum_level(g, spec_regions(r), d).contains(t) ==> level_ok(g, t, d, r),
    decreases d,
{
    lemma_node_index(g);
    lemma_spec_regions(r);
    if d == 0 {
        let t0 = initial_view(g);
        assert(count_colored(t0.0) == 0) by {
            lemma_count_colored_zero(t0.0);
        }
        assert(g.contains(g[0]));
        lemma_strict_no_dups(g);
        assert(node_index(g, g[0]) == 0);
    } else {
        lemma_enum_level_ok(g, r, (d - 1) as nat);
        assert forall|t2: TilingView| #[trigger] enum_level(g, spec_regions(r), d).contains(t2) implies level_ok(g, t2, d, r) by {
            let t = choose|t: TilingView| enum_level(g, spec_regions(r), (d - 1) as nat).contains(t) && #[trigger] enum_step(g, spec_regions(r), t, t2);
            let tile = choose|tile: Seq<Node>| #[trigger] spec_regions(r).contains(tile) && placed(g, t, tile, t2);
            lemma_placed_ok(g, t, tile, (d - 1) as nat, r);
        }
    }
}

proof fn lemma_levels_empty(g: Seq<Node>, tiles: Set<Seq<Node>>, d: nat, k: nat)
    requires
        enum_level(g, tiles, d) == Set::<TilingView>::empty(),
        d <= k,
    ensures
        enum_level(g, tiles, k) == Set::<TilingView>::empty(),
    decreases k - d,
{
    if d < k {
        lemma_levels_empty(g, tiles, d, (k - 1) as nat);
        assert(enum_level(g, tiles, k) =~= Set::<TilingView>::empty());
    }
}

/// The tilings made from `level[a2]` and `tiles[b2]` for the pairs before
/// `(a, b)`.
pub open spec fn next_upto(g: Seq<Node>, level: Seq<TilingView>, tiles: Seq<Seq<Node>>, a: int, b: int) -> Set<TilingView> {
    Set::new(|t2: TilingView| exists|a2: int, b2: int| 0 <= a2 < level.len() && 0 <= b2 < tiles.len()
        && (a2 < a || (a2 == a && b2 < b)) && #[trigger] placed(g, level[a2], tiles[b2], t2))
}

/// All tilings of the levels before `d`.
pub open spec fn levels_below(g: Seq<Node>, tiles: Set<Seq<Node>>, d: nat) -> Set<TilingView> {
    Set::new(|t: TilingView| exists|k: nat| k < d && #[trigger] enum_level(g, tiles, k).contains(t))
}

/// All tilings held by `v` are well formed and tile `g`.
pub open spec fn all_of_graph<'g>(v: Seq<Tiling<'g>>, g: Seq<Node>) -> bool {
    forall|i: int| 0 <= i < v.len() ==> (#[trigger] v[i]).wf() && v[i].nodes() == g
}

impl<'g> Tiling<'g> {
    /// Enumerates all partial tilings of `g` with tiles of size `r`: tiles are
    /// placed one at a time at the first uncolored node, and the colors of
    /// each tiling are renumbered in order of appearance.
    pub fn enumerate(g: &'g Graph, r: usize) -> (res: Vec<Tiling<'g>>)
        requires
            g.wf(),
            strictly_sorted_nodes(g@),
            0 < g@.len() <= 254,
            1 <= r <= 63,
            room_for_tiles(g@, r as nat),
        ensures
            is_key_set(res@),
            all_of_graph(res@, g@),
            key_set(res@) == spec_enumerate(g@, r as nat),
    {
        let tiles = regions(r);
        let ghost tset = spec_regions(r as nat);
        let ghost tv = views(tiles@);
        proof {
            lemma_spec_regions(r as nat);
            g.lemma_wf();
        }
        let mut visited: Vec<Tiling<'g>> = Vec::new();
        let mut level: Vec<Tiling<'g>> = Vec::new();
        let t0 = Tiling::of_graph(g);
        level.push(t0);
        let mut depth: usize = 0;
        proof {
            assert(views(level@) =~= seq![t0@]);
            assert(t0@ == initial_view(g@)) by {
                assert(t0@.0 =~= initial_view(g@).0);
            }
            assert(key_set(level@) =~= enum_level(g@, tset, 0)) by {
                assert(views(level@)[0] == t0@);
            }
            assert(key_set(visited@) =~= levels_below(g@, tset, 0));
            assert(count_colored(t0@.0) == 0) by {
                lemma_count_colored_zero(t0@.0);
            }
            assert(level_ok(g@, t0@, 0, r as nat)) by {
                assert(g@.contains(g@[0]));
                assert(g.index_of(g@[0]) == 0);
            }
        }
        while level.len() > 0
            invariant
                g.wf(),
                strictly_sorted_nodes(g@),
                0 < g@.len() <= 254,
                1 <= r <= 63,
                room_for_tiles(g@, r as nat),
                tset == spec_regions(r as nat),
                tv == views(tiles@),
                key_set(tiles@) == tset,
                forall|j: int| 0 <= j < tiles@.len() ==> (#[trigger] tiles@[j]).wf(),
                forall|x: Seq<Node>| #[trigger] tset.contains(x) ==> {
                    &&& strictly_sorted_nodes(x)
                    &&& x.len() == r
                    &&& bounded(x, r as nat)
                    &&& x.contains((0i8, 0i8))
                },
                is_key_set(level@),
                is_key_set(visited@),
                all_of_graph(level@, g@),
                all_of_graph(visited@, g@),
                key_set(level@) == enum_level(g@, tset, depth as nat),
                forall|t: TilingView| #[trigger] key_set(level@).contains(t) ==> level_ok(g@, t, depth as nat, r as nat),
                key_set(visited@) == levels_below(g@, tset, depth as nat),
                depth <= g@.len() + 1,
            decreases g@.len() + 1 - depth,
        {
            proof {
                let t = level@[0]@;
                assert(views(level@)[0] == t);
                assert(key_set(level@).contains(t));
                lemma_count_colored_bound(t.0);
                assert(depth <= depth * r) by (nonlinear_arith)
                    requires
                        r >= 1,
                ;
            }
            let mut a: usize = 0;
            let ghost vis0 = key_set(visited@);
            while a < level.len()
                invariant
                    a <= level@.len(),
                    is_key_set(visited@),
                    all_of_graph(visited@, g@),
                    all_of_graph(level@, g@),
                    key_set(visited@) == vis0 + views(level@).subrange(0, a as int).to_set(),
                decreases level@.len() - a,
            {
                let d = level[a].duplicate();
                let ghost old_vis = visited@;
                insert_key(&mut visited, d);
                proof {
                    assert(views(level@).subrange(0, a + 1) == views(level@).subrange(0, a as int).push(level@[a as int]@));
                    views(level@).subrange(0, a as int).lemma_push_to_set_commute(level@[a as int]@);
                    lemma_all_of_graph_insert(old_vis, visited@, d, g@);
                }
                a = a + 1;
            }
            proof {
                assert(views(level@).subrange(0, level@.len() as int) == views(level@));
                assert(key_set(visited@) =~= levels_below(g@, tset, (depth + 1) as nat)) by {
                    assert forall|t: TilingView| #[trigger] key_set(visited@).contains(t) == levels_below(g@, tset, (depth + 1) as nat).contains(t) by {
                        if levels_below(g@, tset, (depth + 1) as nat).contains(t) {
                            let k = choose|k: nat| k < depth + 1 && #[trigger] enum_level(g@, tset, k).contains(t);
                            if k < depth {
                                assert(levels_below(g@, tset, depth as nat).contains(t));
                            }
                        }
                        if key_set(visited@).contains(t) && !vis0.contains(t) {
                            assert(enum_level(g@, tset, depth as nat).contains(t));
                        }
                    }
                }
            }
            let mut next: Vec<Tiling<'g>> = Vec::new();
            let ghost lv = views(level@);
            let mut a: usize = 0;
            proof {
                assert(key_set(next@) =~= next_upto(g@, lv, tv, 0, 0));
            }
            while a < level.len()
                invariant
                    g.wf(),
                    strictly_sorted_nodes(g@),
                    0 < g@.len() <= 254,
                    1 <= r <= 63,
                    room_for_tiles(g@, r as nat),
                    a <= level@.len(),
                    lv == views(level@),
                    tv == views(tiles@),
                    key_set(tiles@) == tset,
                    forall|j: int| 0 <= j < tiles@.len() ==> (#[trigger] tiles@[j]).wf(),
                    forall|x: Seq<Node>| #[trigger] tset.contains(x) ==> {
                        &&& strictly_sorted_nodes(x)
                        &&& x.len() == r
                        &&& bounded(x, r as nat)
                        &&& x.contains((0i8, 0i8))
                    },
                    all_of_graph(level@, g@),
                    forall|t: TilingView| #[trigger] key_set(level@).contains(t) ==> level_ok(g@, t, depth as nat, r as nat),
                    is_key_set(next@),
                    all_of_graph(next@, g@),
                    key_set(next@) == next_upto(g@, lv, tv, a as int, 0),
                    forall|t: TilingView| #[trigger] key_set(next@).contains(t) ==> level_ok(g@, t, (depth + 1) as nat, r as nat),
                decreases level@.len() - a,
            {
                let ghost ta = lv[a as int];
                proof {
                    assert(lv[a as int] == level@[a as int]@);
                    assert(key_set(level@).contains(ta));
                }
                match level[a].next_uncolored() {
                    None => {
                        proof {
                            assert(next_upto(g@, lv, tv, a + 1, 0) =~= next_upto(g@, lv, tv, a as int, 0)) by {
                                assert forall|t2: TilingView| #[trigger] next_upto(g@, lv, tv, a + 1, 0).contains(t2)
                                    implies next_upto(g@, lv, tv, a as int, 0).contains(t2) by {
                                    let (a2, b2) = choose|a2: int, b2: int| 0 <= a2 < lv.len() && 0 <= b2 < tv.len()
                                        && (a2 < a + 1 || (a2 == a + 1 && b2 < 0)) && #[trigger] placed(g@, lv[a2], tv[b2], t2);
                                }
                                assert forall|t2: TilingView| #[trigger] next_upto(g@, lv, tv, a as int, 0).contains(t2)
                                    implies next_upto(g@, lv, tv, a + 1, 0).contains(t2) by {
                                    let (a2, b2) = choose|a2: int, b2: int| 0 <= a2 < lv.len() && 0 <= b2 < tv.len()
                                        && (a2 < a || (a2 == a && b2 < 0)) && #[trigger] placed(g@, lv[a2], tv[b2], t2);
                                }
                            }
                        }
                    },
                    Some(n) => {
                        let mut b: usize = 0;
                        proof {
                            assert(next_upto(g@, lv, tv, a as int, 0) =~= next_upto(g@, lv, tv, a as int, 0));
                        }
                        while b < tiles.len()
                            invariant
                                g.wf(),
                                strictly_sorted_nodes(g@),
                                0 < g@.len() <= 254,
                                1 <= r <= 63,
                                room_for_tiles(g@, r as nat),
                                a < level@.len(),
                                b <= tiles@.len(),
                                lv == views(level@),
                                tv == views(tiles@),
                                ta == lv[a as int],
                                ta.1 == Some(n),
                                key_set(tiles@) == tset,
                                forall|j: int| 0 <= j < tiles@.len() ==> (#[trigger] tiles@[j]).wf(),
                                forall|x: Seq<Node>| #[trigger] tset.contains(x) ==> {
                                    &&& strictly_sorted_nodes(x)
                                    &&& x.len() == r
                                    &&& bounded(x, r as nat)
                                    &&& x.contains((0i8, 0i8))
                                },
                                all_of_graph(level@, g@),
                                level_ok(g@, ta, depth as nat, r as nat),
                                is_key_set(next@),
                                all_of_graph(next@, g@),
                                key_set(next@) == next_upto(g@, lv, tv, a as int, b as int),
                                forall|t: TilingView| #[trigger] key_set(next@).contains(t) ==> level_ok(g@, t, (depth + 1) as nat, r as nat),
                            decreases tiles@.len() - b,
                        {
                            let ghost tile = tv[b as int];
                            proof {
                                assert(tv[b as int] == tiles@[b as int]@);
                                assert(key_set(tiles@).contains(tile));
                                g.lemma_wf();
                                let i = g.index_of(n) as int;
                                assert(g@.contains(n));
                                assert(g@[i] == n);
                                assert(ta.0[i] is None);
                                lemma_count_colored_bound(ta.0);
                                assert(depth * r < g@.len());
                                assert(depth <= depth * r) by (nonlinear_arith)
                                    requires
                                        r >= 1,
                                ;
                                assert forall|j: int| 0 <= j < tile.len() implies add_fits(n, #[trigger] tile[j]) by {
                                    assert(bounded(tile, r as nat));
                                    assert(0 <= tile[j].0 < r);
                                }
                                level@[a as int].lemma_wf();
                            }
                            let cand = level[a].duplicate();
                            let ghost ins = spec_try_insert(g@, ta, n, tile);
                            match cand.try_insert(n, &tiles[b]) {
                                Some(t2) => {
                                    let mut t2 = t2;
                                    proof {
                                        lemma_placed_ok(g@, ta, tile, depth as nat, r as nat);
                                    }
                                    t2.normalize();
                                    let ghost old_next = next@;
                                    let ghost t2v = t2@;
                                    proof {
                                        assert(placed(g@, ta, tile, t2v));
                                    }
                                    insert_key(&mut next, t2);
                                    proof {
                                        lemma_all_of_graph_insert(old_next, next@, t2, g@);
                                        assert(key_set(next@) =~= next_upto(g@, lv, tv, a as int, b + 1)) by {
                                            assert forall|x: TilingView| #[trigger] next_upto(g@, lv, tv, a as int, b + 1).contains(x)
                                                implies key_set(next@).contains(x) by {
                                                let (a2, b2) = choose|a2: int, b2: int| 0 <= a2 < lv.len() && 0 <= b2 < tv.len()
                                                    && (a2 < a || (a2 == a && b2 < b + 1)) && #[trigger] placed(g@, lv[a2], tv[b2], x);
                                                if !(a2 < a || (a2 == a && b2 < b)) {
                                                    assert(x == t2v);
                                                } else {
                                                    assert(next_upto(g@, lv, tv, a as int, b as int).contains(x));
                                                }
                                            }
                                            assert forall|x: TilingView| #[trigger] key_set(next@).contains(x)
                                                implies next_upto(g@, lv, tv, a as int, b + 1).contains(x) by {
                                                if x == t2v {
                                                    assert(placed(g@, lv[a as int], tv[b as int], x));
                                                } else {
                                                    let (a2, b2) = choose|a2: int, b2: int| 0 <= a2 < lv.len() && 0 <= b2 < tv.len()
                                                        && (a2 < a || (a2 == a && b2 < b)) && #[trigger] placed(g@, lv[a2], tv[b2], x);
                                                }
                                            }
                                        }
                                    }
                                },
                                None => {
                                    proof {
                                        assert(next_upto(g@, lv, tv, a as int, b + 1) =~= next_upto(g@, lv, tv, a as int, b as int)) by {
                                            assert forall|x: TilingView| #[trigger] next_upto(g@, lv, tv, a as int, b + 1).contains(x)
                                                implies next_upto(g@, lv, tv, a as int, b as int).contains(x) by {
                                                let (a2, b2) = choose|a2: int, b2: int| 0 <= a2 < lv.len() && 0 <= b2 < tv.len()
                                                    && (a2 < a || (a2 == a && b2 < b + 1)) && #[trigger] placed(g@, lv[a2], tv[b2], x);
                                                if !(a2 < a || (a2 == a && b2 < b)) {
                                                    assert(false);
                                                }
                                            }
                                            assert forall|x: TilingView| #[trigger] next_upto(g@, lv, tv, a as int, b as int).contains(x)
                                                implies next_upto(g@, lv, tv, a as int, b + 1).contains(x) by {
                                                let (a2, b2) = choose|a2: int, b2: int| 0 <= a2 < lv.len() && 0 <= b2 < tv.len()
                                                    && (a2 < a || (a2 == a && b2 < b)) && #[trigger] placed(g@, lv[a2], tv[b2], x);
                                            }
                                        }
                                    }
                                },
                            }
                            b = b + 1;
                        }
                        proof {
                            assert(next_upto(g@, lv, tv, a as int, tv.len() as int) =~= next_upto(g@, lv, tv, a + 1, 0)) by {
                                assert forall|x: TilingView| #[trigger] next_upto(g@, lv, tv, a as int, tv.len() as int).contains(x)
                                    == next_upto(g@, lv, tv, a + 1, 0).contains(x) by {
                                    if next_upto(g@, lv, tv, a as int, tv.len() as int).contains(x) {
                                        let (a2, b2) = choose|a2: int, b2: int| 0 <= a2 < lv.len() && 0 <= b2 < tv.len()
                                            && (a2 < a || (a2 == a && b2 < tv.len())) && #[trigger] placed(g@, lv[a2], tv[b2], x);
                                        assert(next_upto(g@, lv, tv, a + 1, 0).contains(x));
                                    }
                                    if next_upto(g@, lv, tv, a + 1, 0).contains(x) {
                                        let (a2, b2) = choose|a2: int, b2: int| 0 <= a2 < lv.len() && 0 <= b2 < tv.len()
                                            && (a2 < a + 1 || (a2 == a + 1 && b2 < 0)) && #[trigger] placed(g@, lv[a2], tv[b2], x);
                                        assert(next_upto(g@, lv, tv, a as int, tv.len() as int).contains(x));
                                    }
                                }
                            }
                        }
                    },
                }
                a = a + 1;
            }
            proof {
                assert(key_set(next@) =~= enum_level(g@, tset, (depth + 1) as nat)) by {
                    assert forall|x: TilingView| #[trigger] key_set(next@).contains(x) == enum_level(g@, tset, (depth + 1) as nat).contains(x) by {
                        if key_set(next@).contains(x) {
                            let (a2, b2) = choose|a2: int, b2: int| 0 <= a2 < lv.len() && 0 <= b2 < tv.len()
                                && (a2 < lv.len() || (a2 == lv.len() && b2 < 0)) && #[trigger] placed(g@, lv[a2], tv[b2], x);
                            assert(key_set(level@).contains(lv[a2]));
                            assert(key_set(tiles@).contains(tv[b2]));
                            assert(enum_step(g@, tset, lv[a2], x));
                        }
                        if enum_level(g@, tset, (depth + 1) as nat).contains(x) {
                            let t = choose|t: TilingView| enum_level(g@, tset, depth as nat).contains(t) && #[trigger] enum_step(g@, tset, t, x);
                            let tile = choose|tile: Seq<Node>| #[trigger] tset.contains(tile) && placed(g@, t, tile, x);
                            let a2 = choose|a2: int| 0 <= a2 < lv.len() && lv[a2] == t;
                            let b2 = choose|b2: int| 0 <= b2 < tv.len() && tv[b2] == tile;
                            assert(placed(g@, lv[a2], tv[b2], x));
                            assert(next_upto(g@, lv, tv, lv.len() as int, 0).contains(x));
                        }
                    }
                }
            }
            level = next;
            depth = depth + 1;
        }
        proof {
            assert(enum_level(g@, tset, depth as nat) =~= Set::<TilingView>::empty()) by {
                assert(views(level@).len() == 0);
            }
            assert(key_set(visited@) =~= spec_enumerate(g@, r as nat)) by {
                assert forall|t: TilingView| #[trigger] spec_enumerate(g@, r as nat).contains(t) implies key_set(visited@).contains(t) by {
                    let k = choose|k: nat| #[trigger] enum_level(g@, tset, k).contains(t);
                    if k >= depth {
                        lemma_levels_empty(g@, tset, depth as nat, k);
                    }
                    assert(levels_below(g@, tset, depth as nat).contains(t));
                }
                assert forall|t: TilingView| #[trigger] key_set(visited@).contains(t) implies spec_enumerate(g@, r as nat).contains(t) by {
                    let k = choose|k: nat| k < depth && #[trigger] enum_level(g@, tset, k).contains(t);
                }
            }
        }
        visited
    }
}

proof fn lemma_count_colored_zero(c: Coloring)
    requires
        forall|i: int| 0 <= i < c.len() ==> #[trigger] c[i] is None,
    ensures
        count_colored(c) == 0,
    decreases c.len(),
{
    if c.len() > 0 {
        lemma_count_colored_zero(c.drop_last());
    }
}

proof fn lemma_all_of_graph_insert<'g>(old_v: Seq<Tiling<'g>>, new_v: Seq<Tiling<'g>>, x: Tiling<'g>, g: Seq<Node>)
    requires
        all_of_graph(old_v, g),
        x.wf(),
        x.nodes() == g,
        forall|j: int| 0 <= j < new_v.len() ==> new_v[j] == x || old_v.contains(#[trigger] new_v[j]),
    ensures
        all_of_graph(new_v, g),
{
    assert forall|j: int| 0 <= j < new_v.len() implies (#[trigger] new_v[j]).wf() && new_v[j].nodes() == g by {
        if new_v[j] != x {
            let i = choose|i: int| 0 <= i < old_v.len() && old_v[i] == new_v[j];
            assert(old_v[i].wf());
        }
    }
}

} // verus!
