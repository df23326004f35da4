//! Checking that the metagraph of every cover of a region reaches, in each
//! of its connected components, a completion of a given partial tiling.

use vstd::prelude::*;
use std::collections::BTreeMap;
use crate::node::Node;
use crate::color::Color;
use crate::lattice::{Graph, node_index, lemma_node_index};
use crate::tiling::{Tiling, TilingView};
use crate::ordset::{key_set, views, is_key_set, insert_key, contains_key};
use crate::sorting::strictly_sorted_nodes;
use crate::enumerate::{spec_enumerate, room_for_tiles, all_of_graph};
use crate::recomb::spec_recomb;
use crate::covers::{potential_covers, cover_inputs, lemma_no_counterexamples, covers_graph};
use crate::compact::{decode, lemma_decode_in_universe};
use crate::region::Region;
use crate::reach::{spec_reachable, reach_within, spec_tiling_neighbors, diffs_fit, lemma_complete_proper, insert_all};
use vstd::std_specs::iter::IteratorSpec;

verus! {

broadcast use {
    vstd::laws_cmp::group_laws_cmp,
    vstd::std_specs::btree::group_btree_axioms,
};

/// The entries of the map, in increasing order of nodes.
pub(crate) fn map_entries(m: &BTreeMap<Node, Color>) -> (v: Vec<(Node, Color)>)
    ensures
        v@.len() == m@.dom().len(),
        forall|i: int| 0 <= i < v@.len() ==> #[trigger] m@.contains_key(v@[i].0) && m@[v@[i].0] == v@[i].1,
        forall|n: Node| #[trigger] m@.contains_key(n) ==> exists|i: int| 0 <= i < v@.len() && v@[i].0 == n,
        forall|i: int, j: int| 0 <= i < v@.len() && 0 <= j < v@.len() && i != j ==> v@[i].0 != v@[j].0,
{
    let mut v: Vec<(Node, Color)> = Vec::new();
    let iter = m.iter();
    let ghost entries = iter.remaining();
    proof {
        assert(vstd::std_specs::btree::key_obeys_cmp_spec::<Node>());
        assert(entries == vstd::std_specs::btree::spec_btree_map_iter(m).remaining());
    }
    for kv in it: iter
        invariant
            entries == vstd::std_specs::btree::spec_btree_map_iter(m).remaining(),
            entries.no_duplicates(),
            it.seq() == entries,
            v@.len() == it.index(),
            forall|i: int| 0 <= i < it.index() ==> #[trigger] v@[i] == (*entries[i].0, *entries[i].1),
    {
        let (n, c) = kv;
        v.push((*n, *c));
    }
    proof {
        assert forall|n: Node| #[trigger] m@.contains_key(n) implies exists|i: int| 0 <= i < v@.len() && v@[i].0 == n by {
            assert(entries.contains((&n, &m@[n])));
            let i = choose|i: int| 0 <= i < entries.len() && entries[i] == (&n, &m@[n]);
            assert(v@[i] == (*entries[i].0, *entries[i].1));
        }
        assert forall|i: int, j: int| 0 <= i < v@.len() && 0 <= j < v@.len() && i != j implies v@[i].0 != v@[j].0 by {
            assert(v@[i] == (*entries[i].0, *entries[i].1));
            assert(v@[j] == (*entries[j].0, *entries[j].1));
            assert(m@.contains_key(*entries[i].0));
            assert(m@.contains_key(*entries[j].0));
            if v@[i].0 == v@[j].0 {
                assert(entries[i] == entries[j]);
            }
        }
    }
    v
}

/// The nodes that the partial tiling `m` gives the color `c`.
pub open spec fn partial_tile(m: Map<Node, Color>, c: Color) -> Set<Node> {
    Set::new(|n: Node| m.contains_key(n) && m[n] == c)
}

/// The tiles of a partial tiling, one per color, as sets of nodes.
pub open spec fn partial_tiles(m: Map<Node, Color>) -> Set<Set<Node>> {
    Set::new(|s: Set<Node>| exists|n: Node| #[trigger] m.contains_key(n) && s == partial_tile(m, m[n]))
}

/// The tiles of a sequence of tiles, as sets of nodes.
pub open spec fn tile_sets(v: Seq<Vec<Node>>) -> Set<Set<Node>> {
    v.map_values(|t: Vec<Node>| t@.to_set()).to_set()
}

/// One of the first `j` entries is `(n, c)`.
pub open spec fn entry_among(e: Seq<(Node, Color)>, j: int, n: Node, c: Color) -> bool {
    exists|l: int| 0 <= l < j && e[l] == (n, c)
}

/// The nodes of the entries with color `c`.
pub open spec fn entries_of_color(e: Seq<(Node, Color)>, c: Color) -> Set<Node> {
    Set::new(|n: Node| entry_among(e, e.len() as int, n, c))
}

/// The nodes of the entries with color `c`.
fn nodes_of_color(entries: &Vec<(Node, Color)>, c: Color) -> (t: Vec<Node>)
    requires
        forall|i: int, j: int| 0 <= i < entries@.len() && 0 <= j < entries@.len() && i != j ==> entries@[i].0 != entries@[j].0,
    ensures
        t@.to_set() == entries_of_color(entries@, c),
        t@.no_duplicates(),
{
    let mut t: Vec<Node> = Vec::new();
    let mut j: usize = 0;
    while j < entries.len()
        invariant
            j <= entries@.len(),
            forall|i: int, k: int| 0 <= i < entries@.len() && 0 <= k < entries@.len() && i != k ==> entries@[i].0 != entries@[k].0,
            forall|x: int| 0 <= x < t@.len() ==> entry_among(entries@, j as int, #[trigger] t@[x], c),
            forall|l: int| 0 <= l < j && entries@[l].1 == c ==> t@.contains(#[trigger] entries@[l].0),
            t@.no_duplicates(),
        decreases entries@.len() - j,
    {
        if entries[j].1 == c {
            proof {
                assert forall|x: int| 0 <= x < t@.len() implies t@[x] != entries@[j as int].0 by {
                    assert(entry_among(entries@, j as int, t@[x], c));
                    let l = choose|l: int| 0 <= l < j && entries@[l] == (t@[x], c);
                }
            }
            let ghost t_old = t@;
            t.push(entries[j].0);
            proof {
                assert forall|x: int| 0 <= x < t@.len() implies entry_among(entries@, j + 1, #[trigger] t@[x], c) by {
                    if x < t@.len() - 1 {
                        assert(entry_among(entries@, j as int, t@[x], c));
                        let l = choose|l: int| 0 <= l < j && entries@[l] == (t@[x], c);
                    } else {
                        assert(entries@[j as int] == (t@[x], c));
                    }
                }
                assert forall|l: int| 0 <= l < j + 1 && entries@[l].1 == c implies t@.contains(#[trigger] entries@[l].0) by {
                    if l < j {
                        assert(t_old.contains(entries@[l].0));
                        let x = choose|x: int| 0 <= x < t_old.len() && t_old[x] == entries@[l].0;
                        assert(t@[x] == entries@[l].0);
                    } else {
                        assert(t@[t@.len() - 1] == entries@[l].0);
                    }
                }
            }
        }
        j = j + 1;
    }
    proof {
        assert(t@.to_set() =~= entries_of_color(entries@, c)) by {
            assert forall|n: Node| #[trigger] t@.to_set().contains(n) implies entry_among(entries@, entries@.len() as int, n, c) by {
                let x = choose|x: int| 0 <= x < t@.len() && t@[x] == n;
                assert(entry_among(entries@, entries@.len() as int, t@[x], c));
                let l = choose|l: int| 0 <= l < entries@.len() && entries@[l] == (t@[x], c);
            }
            assert forall|n: Node| entry_among(entries@, entries@.len() as int, n, c) implies #[trigger] t@.to_set().contains(n) by {
                let l = choose|l: int| 0 <= l < entries@.len() && entries@[l] == (n, c);
                assert(t@.contains(entries@[l].0));
            }
        }
    }
    t
}

/// Whether every tile of the partial tiling has `tile_size` nodes.
pub fn tiles_have_size(partial: &BTreeMap<Node, Color>, tile_size: usize) -> (r: bool)
    ensures
        r == forall|n: Node| #[trigger] partial@.contains_key(n) ==> partial_tile(partial@, partial@[n]).len() == tile_size,
{
    let entries = map_entries(partial);
    let ghost m = partial@;
    let ghost e = entries@;
    proof {
        assert forall|c: Color| #[trigger] entries_of_color(e, c) == partial_tile(m, c) by {
            assert(entries_of_color(e, c) =~= partial_tile(m, c)) by {
                assert forall|n: Node| partial_tile(m, c).contains(n) implies entry_among(e, e.len() as int, n, c) by {
                    assert(m.contains_key(n));
                    let l = choose|l: int| 0 <= l < e.len() && e[l].0 == n;
                    assert(m.contains_key(e[l].0) && m[e[l].0] == e[l].1);
                    assert(e[l] == (n, c));
                }
                assert forall|n: Node| entry_among(e, e.len() as int, n, c) implies partial_tile(m, c).contains(n) by {
                    let l = choose|l: int| 0 <= l < e.len() && e[l] == (n, c);
                    assert(m.contains_key(e[l].0) && m[e[l].0] == e[l].1);
                }
            }
        }
    }
    let mut i: usize = 0;
    while i < entries.len()
        invariant
            i <= e.len(),
            e == entries@,
            m == partial@,
            forall|i: int, j: int| 0 <= i < e.len() && 0 <= j < e.len() && i != j ==> e[i].0 != e[j].0,
            forall|c: Color| #[trigger] entries_of_color(e, c) == partial_tile(m, c),
            forall|j: int| 0 <= j < e.len() ==> #[trigger] m.contains_key(e[j].0) && m[e[j].0] == e[j].1,
            forall|j: int| 0 <= j < i ==> partial_tile(m, #[trigger] e[j].1).len() == tile_size,
        decreases e.len() - i,
    {
        let t = nodes_of_color(&entries, entries[i].1);
        proof {
            t@.unique_seq_to_set();
        }
        if t.len() != tile_size {
            proof {
                assert(m.contains_key(e[i as int].0));
            }
            return false;
        }
        i = i + 1;
    }
    proof {
        assert forall|n: Node| #[trigger] m.contains_key(n) implies partial_tile(m, m[n]).len() == tile_size by {
            let l = choose|l: int| 0 <= l < e.len() && e[l].0 == n;
            assert(partial_tile(m, e[l].1).len() == tile_size);
        }
    }
    true
}

/// The tiles of a partial tiling: for each color, the nodes of that color.
/// Each tile must have `tile_size` nodes.
pub fn partial_tile_set(partial: &BTreeMap<Node, Color>, tile_size: usize) -> (tiles: Vec<Vec<Node>>)
    requires
        forall|n: Node| #[trigger] partial@.contains_key(n) ==> partial_tile(partial@, partial@[n]).len() == tile_size,
    ensures
        tile_sets(tiles@) == partial_tiles(partial@),
        forall|i: int| 0 <= i < tiles@.len() ==> (#[trigger] tiles@[i])@.no_duplicates() && tiles@[i]@.len() > 0,
{
    let entries = map_entries(partial);
    let ghost m = partial@;
    let ghost e = entries@;
    proof {
        assert forall|c: Color| #[trigger] entries_of_color(e, c) == partial_tile(m, c) by {
            assert(entries_of_color(e, c) =~= partial_tile(m, c)) by {
                assert forall|n: Node| partial_tile(m, c).contains(n) implies entry_among(e, e.len() as int, n, c) by {
                    assert(m.contains_key(n));
                    let l = choose|l: int| 0 <= l < e.len() && e[l].0 == n;
                    assert(m.contains_key(e[l].0) && m[e[l].0] == e[l].1);
                    assert(e[l] == (n, c));
                }
                assert forall|n: Node| entry_among(e, e.len() as int, n, c) implies partial_tile(m, c).contains(n) by {
                    let l = choose|l: int| 0 <= l < e.len() && e[l] == (n, c);
                    assert(m.contains_key(e[l].0) && m[e[l].0] == e[l].1);
                }
            }
        }
    }
    let mut tiles: Vec<Vec<Node>> = Vec::new();
    let mut i: usize = 0;
    proof {
        assert(tile_sets(tiles@) =~= Set::new(|s: Set<Node>| exists|j: int| 0 <= j < 0 && s == partial_tile(m, e[j].1)));
    }
    while i < entries.len()
        invariant
            i <= e.len(),
            e == entries@,
            m == partial@,
            forall|a: int, b: int| 0 <= a < e.len() && 0 <= b < e.len() && a != b ==> e[a].0 != e[b].0,
            forall|a: int| 0 <= a < e.len() ==> #[trigger] m.contains_key(e[a].0) && m[e[a].0] == e[a].1,
            forall|c: Color| #[trigger] entries_of_color(e, c) == partial_tile(m, c),
            tile_sets(tiles@) == Set::new(|s: Set<Node>| exists|j: int| 0 <= j < i && s == partial_tile(m, e[j].1)),
            forall|j: int| 0 <= j < tiles@.len() ==> (#[trigger] tiles@[j])@.no_duplicates() && tiles@[j]@.len() > 0,
        decreases e.len() - i,
    {
        let c = entries[i].1;
        let mut seen_before = false;
        let mut q: usize = 0;
        while q < i
            invariant
                q <= i < e.len(),
                e == entries@,
                c == e[i as int].1,
                seen_before == exists|j: int| 0 <= j < q && e[j].1 == c,
            decreases i - q,
        {
            if entries[q].1 == c {
                seen_before = true;
            }
            q = q + 1;
        }
        let ghost before = tiles@;
        if !seen_before {
            let t = nodes_of_color(&entries, c);
            proof {
                assert(t@.to_set().contains(e[i as int].0));
            }
            tiles.push(t);
            proof {
                let f = |t: Vec<Node>| t@.to_set();
                assert(tiles@.map_values(f) == before.map_values(f).push(f(t)));
                before.map_values(f).lemma_push_to_set_commute(f(t));
                assert(f(t) == partial_tile(m, c));
                assert forall|j: int| 0 <= j < tiles@.len() implies (#[trigger] tiles@[j])@.no_duplicates() && tiles@[j]@.len() > 0 by {
                    if j < before.len() {
                        assert(tiles@[j] == before[j]);
                    }
                }
            }
        }
        proof {
            assert(tile_sets(tiles@) =~= Set::new(|s: Set<Node>| exists|j: int| 0 <= j < i + 1 && s == partial_tile(m, e[j].1))) by {
                assert forall|s: Set<Node>| #[trigger] tile_sets(tiles@).contains(s)
                    == (exists|j: int| 0 <= j < i + 1 && s == partial_tile(m, e[j].1)) by {
                    if s == partial_tile(m, c) && seen_before {
                        let j = choose|j: int| 0 <= j < i && e[j].1 == c;
                        assert(tile_sets(before).contains(s));
                    }
                }
            }
        }
        i = i + 1;
    }
    proof {
        assert(tile_sets(tiles@) =~= partial_tiles(m)) by {
            assert forall|s: Set<Node>| #[trigger] tile_sets(tiles@).contains(s) == partial_tiles(m).contains(s) by {
                if tile_sets(tiles@).contains(s) {
                    let j = choose|j: int| 0 <= j < e.len() && s == partial_tile(m, e[j].1);
                    assert(m.contains_key(e[j].0));
                }
                if partial_tiles(m).contains(s) {
                    let n = choose|n: Node| #[trigger] m.contains_key(n) && s == partial_tile(m, m[n]);
                    let l = choose|l: int| 0 <= l < e.len() && e[l].0 == n;
                    assert(m[e[l].0] == e[l].1);
                }
            }
        }
    }
    tiles
}

/// The color of `n` in the tiling `t` of `g`; none off the graph.
pub open spec fn node_color(g: Seq<Node>, t: TilingView, n: Node) -> Option<u8> {
    if g.contains(n) {
        t.0[node_index(g, n) as int]
    } else {
        None
    }
}

/// `t` completes the partial tiling `tiles`: all nodes of a tile have the
/// color of its first node.
pub open spec fn completes(g: Seq<Node>, t: TilingView, tiles: Seq<Seq<Node>>) -> bool {
    forall|i: int, j: int| 0 <= i < tiles.len() && 0 <= j < tiles[i].len()
        ==> #[trigger] node_color(g, t, tiles[i][j]) == node_color(g, t, tiles[i][0])
}

/// `t` completes the partial tiling whose tiles are the sets `tiles`: the
/// nodes of each tile have one color.
pub open spec fn completes_sets(g: Seq<Node>, t: TilingView, tiles: Set<Set<Node>>) -> bool {
    forall|s: Set<Node>, n1: Node, n2: Node| #[trigger] tiles.contains(s) && #[trigger] s.contains(n1) && #[trigger] s.contains(n2)
        ==> node_color(g, t, n1) == node_color(g, t, n2)
}

/// With nonempty tiles, the two ways of saying that a tiling completes a
/// partial tiling agree.
pub proof fn lemma_completes_sets(g: Seq<Node>, t: TilingView, v: Seq<Vec<Node>>)
    requires
        forall|i: int| 0 <= i < v.len() ==> (#[trigger] v[i])@.len() > 0,
    ensures
        completes(g, t, tile_seqs(v)) == completes_sets(g, t, tile_sets(v)),
{
    let ts = tile_seqs(v);
    let f = |x: Vec<Node>| x@.to_set();
    if completes(g, t, ts) {
        assert forall|s: Set<Node>, n1: Node, n2: Node| #[trigger] tile_sets(v).contains(s) && #[trigger] s.contains(n1) && #[trigger] s.contains(n2)
            implies node_color(g, t, n1) == node_color(g, t, n2) by {
            let i = choose|i: int| 0 <= i < v.map_values(f).len() && v.map_values(f)[i] == s;
            assert(s == v[i]@.to_set());
            let j1 = choose|j1: int| 0 <= j1 < v[i]@.len() && v[i]@[j1] == n1;
            let j2 = choose|j2: int| 0 <= j2 < v[i]@.len() && v[i]@[j2] == n2;
            assert(ts[i] == v[i]@);
            assert(node_color(g, t, ts[i][j1]) == node_color(g, t, ts[i][0]));
            assert(node_color(g, t, ts[i][j2]) == node_color(g, t, ts[i][0]));
        }
    }
    if completes_sets(g, t, tile_sets(v)) {
        assert forall|i: int, j: int| 0 <= i < ts.len() && 0 <= j < ts[i].len()
            implies #[trigger] node_color(g, t, ts[i][j]) == node_color(g, t, ts[i][0]) by {
            let s = v[i]@.to_set();
            assert(ts[i] == v[i]@);
            assert(v.map_values(f)[i] == s);
            assert(tile_sets(v).contains(s));
            assert(s.contains(ts[i][j]));
            assert(s.contains(ts[i][0]));
        }
    }
}

/// The tiles as sequences of nodes.
pub open spec fn tile_seqs(v: Seq<Vec<Node>>) -> Seq<Seq<Node>> {
    v.map_values(|t: Vec<Node>| t@)
}

/// The complete tilings of `g` by tiles of size `k` that the enumeration
/// reaches.
pub open spec fn complete_tilings(g: Seq<Node>, k: nat) -> Set<TilingView> {
    spec_enumerate(g, k).filter(|t: TilingView| t.1 is None)
}

/// Every complete tiling of `g` by tiles of size `k` is reached by
/// recombinations from a complete tiling that completes the partial tiling.
pub open spec fn spec_happy(g: Seq<Node>, k: nat, tiles: Set<Set<Node>>) -> bool {
    forall|t2: TilingView| #[trigger] complete_tilings(g, k).contains(t2) ==> exists|t1: TilingView|
        complete_tilings(g, k).contains(t1) && completes_sets(g, t1, tiles) && #[trigger] spec_reachable(g, t1, spec_recomb(k)).contains(t2)
}

/// What the recombinations reach from a reached tiling is reached.
pub proof fn lemma_reach_trans(g: Seq<Node>, t1: TilingView, entries: Set<crate::recomb::RecombEntry>, t: TilingView)
    requires
        spec_reachable(g, t1, entries).contains(t),
    ensures
        spec_reachable(g, t, entries).subset_of(spec_reachable(g, t1, entries)),
{
    let d = choose|d: nat| #[trigger] reach_within(g, t1, entries, d).contains(t);
    assert forall|y: TilingView| #[trigger] spec_reachable(g, t, entries).contains(y) implies spec_reachable(g, t1, entries).contains(y) by {
        let e = choose|e: nat| #[trigger] reach_within(g, t, entries, e).contains(y);
        lemma_within_shift(g, t1, entries, t, d, e);
        assert(reach_within(g, t1, entries, d + e).contains(y));
    }
}

proof fn lemma_within_shift(g: Seq<Node>, t1: TilingView, entries: Set<crate::recomb::RecombEntry>, t: TilingView, d: nat, e: nat)
    requires
        reach_within(g, t1, entries, d).contains(t),
    ensures
        reach_within(g, t, entries, e).subset_of(reach_within(g, t1, entries, d + e)),
    decreases e,
{
    if e > 0 {
        lemma_within_shift(g, t1, entries, t, d, (e - 1) as nat);
        let w = reach_within(g, t, entries, (e - 1) as nat);
        let w1 = reach_within(g, t1, entries, (d + e - 1) as nat);
        assert(reach_within(g, t1, entries, d + e) == w1 + Set::new(|y: TilingView| exists|x: TilingView| w1.contains(x) && #[trigger] spec_tiling_neighbors(g, x, entries).contains(y)));
        assert forall|y: TilingView| #[trigger] reach_within(g, t, entries, e).contains(y) implies reach_within(g, t1, entries, d + e).contains(y) by {
            if !w.contains(y) {
                let x = choose|x: TilingView| w.contains(x) && #[trigger] spec_tiling_neighbors(g, x, entries).contains(y);
                assert(w1.contains(x));
            }
        }
    }
}

impl<'g> Tiling<'g> {
    /// Whether this tiling completes the partial tiling `tiles`: the nodes of
    /// each tile all have the color of its first node.
    pub fn completes(&self, tiles: &Vec<Vec<Node>>) -> (r: bool)
        requires
            self.wf(),
            forall|i: int| 0 <= i < tiles@.len() ==> (#[trigger] tiles@[i])@.len() > 0,
        ensures
            r == completes(self.nodes(), self@, tile_seqs(tiles@)),
    {
        let ghost g = self.nodes();
        let ghost ts = tile_seqs(tiles@);
        proof {
            self.lemma_graph();
            self.lemma_wf();
        }
        let mut i: usize = 0;
        while i < tiles.len()
            invariant
                i <= tiles@.len(),
                ts == tile_seqs(tiles@),
                g == self.nodes(),
                self.wf(),
                forall|a: int| 0 <= a < tiles@.len() ==> (#[trigger] tiles@[a])@.len() > 0,
                forall|a: int, j: int| 0 <= a < i && 0 <= j < ts[a].len() ==> #[trigger] node_color(g, self@, ts[a][j]) == node_color(g, self@, ts[a][0]),
            decreases tiles@.len() - i,
        {
            let tile = &tiles[i];
            proof {
                assert(ts[i as int] == tile@);
                self.lemma_graph();
            }
            let first = self.color(&tile[0]);
            let mut j: usize = 0;
            while j < tile.len()
                invariant
                    j <= tile@.len(),
                    i < tiles@.len(),
                    ts == tile_seqs(tiles@),
                    ts[i as int] == tile@,
                    tile@.len() > 0,
                    g == self.nodes(),
                    self.wf(),
                    crate::tiling::color_view(first) == node_color(g, self@, tile@[0]),
                    forall|l: int| 0 <= l < j ==> #[trigger] node_color(g, self@, tile@[l]) == node_color(g, self@, tile@[0]),
                decreases tile@.len() - j,
            {
                let c = self.color(&tile[j]);
                proof {
                    self.lemma_graph();
                }
                let same = match (c, first) {
                    (Some(x), Some(y)) => x.get() == y.get(),
                    (None, None) => true,
                    _ => false,
                };
                if !same {
                    proof {
                        assert(node_color(g, self@, ts[i as int][j as int]) != node_color(g, self@, ts[i as int][0]));
                    }
                    return false;
                }
                j = j + 1;
            }
            i = i + 1;
        }
        true
    }
}

/// The tilings reached by recombinations from a complete tiling that
/// completes the partial tiling.
pub open spec fn reached_from_completions(g: Seq<Node>, k: nat, tiles: Set<Set<Node>>) -> Set<TilingView> {
    Set::new(|y: TilingView| exists|t1: TilingView| complete_tilings(g, k).contains(t1) && completes_sets(g, t1, tiles)
        && #[trigger] spec_reachable(g, t1, spec_recomb(k)).contains(y))
}

/// The partial tiling is happy exactly when every complete tiling is reached
/// from a completion.
proof fn lemma_happy_iff(g: Seq<Node>, k: nat, tiles: Set<Set<Node>>)
    ensures
        spec_happy(g, k, tiles) == complete_tilings(g, k).subset_of(reached_from_completions(g, k, tiles)),
{
    if spec_happy(g, k, tiles) {
        assert forall|t2: TilingView| #[trigger] complete_tilings(g, k).contains(t2) implies reached_from_completions(g, k, tiles).contains(t2) by {
            let t1 = choose|t1: TilingView| complete_tilings(g, k).contains(t1) && completes_sets(g, t1, tiles)
                && #[trigger] spec_reachable(g, t1, spec_recomb(k)).contains(t2);
        }
    }
    if complete_tilings(g, k).subset_of(reached_from_completions(g, k, tiles)) {
        assert forall|t2: TilingView| #[trigger] complete_tilings(g, k).contains(t2) implies exists|t1: TilingView|
            complete_tilings(g, k).contains(t1) && completes_sets(g, t1, tiles) && #[trigger] spec_reachable(g, t1, spec_recomb(k)).contains(t2) by {
            assert(reached_from_completions(g, k, tiles).contains(t2));
        }
    }
}

/// The tilings reached from the first `a` tilings of `cs` that complete the
/// partial tiling.
pub open spec fn seen_upto(g: Seq<Node>, k: nat, tiles: Set<Set<Node>>, cs: Seq<TilingView>, a: int) -> Set<TilingView> {
    Set::new(|y: TilingView| exists|i: int| 0 <= i < a && completes_sets(g, cs[i], tiles)
        && #[trigger] spec_reachable(g, cs[i], spec_recomb(k)).contains(y))
}

/// Whether the metagraph of the cover `g` reaches, in each of its connected
/// components, a completion of the partial tiling `tiles`.
pub fn cover_is_happy(g: &Graph, tiles: &Vec<Vec<Node>>, k: usize) -> (r: bool)
    requires
        g.wf(),
        strictly_sorted_nodes(g@),
        0 < g@.len() <= 254,
        1 <= k <= 20,
        room_for_tiles(g@, k as nat),
        diffs_fit(g@),
        forall|i: int| 0 <= i < tiles@.len() ==> (#[trigger] tiles@[i])@.len() > 0,
    ensures
        r == spec_happy(g@, k as nat, tile_sets(tiles@)),
{
    let ghost ts = tile_sets(tiles@);
    let ghost e = spec_recomb(k as nat);
    let all = Tiling::enumerate(g, k);
    let mut complete: Vec<Tiling> = Vec::new();
    let mut i: usize = 0;
    while i < all.len()
        invariant
            i <= all@.len(),
            is_key_set(all@),
            all_of_graph(all@, g@),
            key_set(all@) == spec_enumerate(g@, k as nat),
            is_key_set(complete@),
            all_of_graph(complete@, g@),
            key_set(complete@) == views(all@).subrange(0, i as int).to_set().filter(|t: TilingView| t.1 is None),
        decreases all@.len() - i,
    {
        proof {
            assert(views(all@).subrange(0, i + 1) == views(all@).subrange(0, i as int).push(all@[i as int]@));
            views(all@).subrange(0, i as int).lemma_push_to_set_commute(all@[i as int]@);
        }
        if all[i].is_complete() {
            let ghost before = complete@;
            let t = all[i].duplicate();
            insert_key(&mut complete, t);
            proof {
                assert forall|j: int| 0 <= j < complete@.len() implies (#[trigger] complete@[j]).wf() && complete@[j].nodes() == g@ by {
                    if complete@[j] != t {
                        let l = choose|l: int| 0 <= l < before.len() && before[l] == complete@[j];
                    }
                }
            }
        }
        proof {
            assert(key_set(complete@) =~= views(all@).subrange(0, i + 1).to_set().filter(|t: TilingView| t.1 is None));
        }
        i = i + 1;
    }
    proof {
        assert(views(all@).subrange(0, all@.len() as int) == views(all@));
        assert(key_set(complete@) =~= complete_tilings(g@, k as nat));
    }
    let ghost cs = views(complete@);
    let mut seen: Vec<Tiling> = Vec::new();
    let mut a: usize = 0;
    proof {
        assert(key_set(seen@) =~= seen_upto(g@, k as nat, ts, cs, 0));
    }
    while a < complete.len()
        invariant
            a <= complete@.len(),
            cs == views(complete@),
            ts == tile_sets(tiles@),
            g.wf(),
            strictly_sorted_nodes(g@),
            0 < g@.len() <= 254,
            1 <= k <= 20,
            diffs_fit(g@),
            forall|i: int| 0 <= i < tiles@.len() ==> (#[trigger] tiles@[i])@.len() > 0,
            is_key_set(complete@),
            all_of_graph(complete@, g@),
            key_set(complete@) == complete_tilings(g@, k as nat),
            is_key_set(seen@),
            all_of_graph(seen@, g@),
            key_set(seen@) == seen_upto(g@, k as nat, ts, cs, a as int),
        decreases complete@.len() - a,
    {
        let t = &complete[a];
        proof {
            assert(cs[a as int] == t@);
            assert(key_set(complete@).contains(t@));
        }
        if contains_key(&seen, t) {
            proof {
                assert(key_set(seen@) =~= seen_upto(g@, k as nat, ts, cs, a + 1)) by {
                    assert forall|y: TilingView| #[trigger] seen_upto(g@, k as nat, ts, cs, a + 1).contains(y) implies key_set(seen@).contains(y) by {
                        let i = choose|i: int| 0 <= i < a + 1 && completes_sets(g@, cs[i], ts)
                            && #[trigger] spec_reachable(g@, cs[i], spec_recomb(k as nat)).contains(y);
                        if i == a {
                            let i0 = choose|i0: int| 0 <= i0 < a && completes_sets(g@, cs[i0], ts)
                                && #[trigger] spec_reachable(g@, cs[i0], spec_recomb(k as nat)).contains(t@);
                            lemma_reach_trans(g@, cs[i0], spec_recomb(k as nat), t@);
                            assert(spec_reachable(g@, cs[i0], spec_recomb(k as nat)).contains(y));
                        }
                    }
                    assert forall|y: TilingView| #[trigger] key_set(seen@).contains(y) implies seen_upto(g@, k as nat, ts, cs, a + 1).contains(y) by {
                        let i = choose|i: int| 0 <= i < a && completes_sets(g@, cs[i], ts)
                            && #[trigger] spec_reachable(g@, cs[i], spec_recomb(k as nat)).contains(y);
                    }
                }
            }
        } else {
            let done = t.completes(tiles);
            proof {
                lemma_completes_sets(g@, t@, tiles@);
            }
            if done {
                proof {
                    t.lemma_wf();
                    t.lemma_graph();
                    lemma_complete_proper(g@, k as nat, t@);
                }
                let r = t.reachable(k);
                let ghost before = key_set(seen@);
                insert_all(&mut seen, r, Ghost(g@));
                proof {
                    assert(key_set(seen@) =~= seen_upto(g@, k as nat, ts, cs, a + 1)) by {
                        assert forall|y: TilingView| #[trigger] seen_upto(g@, k as nat, ts, cs, a + 1).contains(y) == key_set(seen@).contains(y) by {
                            if seen_upto(g@, k as nat, ts, cs, a + 1).contains(y) {
                                let i = choose|i: int| 0 <= i < a + 1 && completes_sets(g@, cs[i], ts)
                                    && #[trigger] spec_reachable(g@, cs[i], spec_recomb(k as nat)).contains(y);
                                if i < a {
                                    assert(before.contains(y));
                                }
                            }
                            if before.contains(y) {
                                let i = choose|i: int| 0 <= i < a && completes_sets(g@, cs[i], ts)
                                    && #[trigger] spec_reachable(g@, cs[i], spec_recomb(k as nat)).contains(y);
                            }
                        }
                    }
                }
            } else {
                proof {
                    assert(key_set(seen@) =~= seen_upto(g@, k as nat, ts, cs, a + 1)) by {
                        assert forall|y: TilingView| #[trigger] seen_upto(g@, k as nat, ts, cs, a + 1).contains(y) implies key_set(seen@).contains(y) by {
                            let i = choose|i: int| 0 <= i < a + 1 && completes_sets(g@, cs[i], ts)
                                && #[trigger] spec_reachable(g@, cs[i], spec_recomb(k as nat)).contains(y);
                        }
                        assert forall|y: TilingView| #[trigger] key_set(seen@).contains(y) implies seen_upto(g@, k as nat, ts, cs, a + 1).contains(y) by {
                            let i = choose|i: int| 0 <= i < a && completes_sets(g@, cs[i], ts)
                                && #[trigger] spec_reachable(g@, cs[i], spec_recomb(k as nat)).contains(y);
                        }
                    }
                }
            }
        }
        a = a + 1;
    }
    let ghost seen_all = key_set(seen@);
    proof {
        assert(seen_all =~= reached_from_completions(g@, k as nat, ts)) by {
            assert forall|y: TilingView| #[trigger] seen_all.contains(y) == reached_from_completions(g@, k as nat, ts).contains(y) by {
                if seen_all.contains(y) {
                    let i = choose|i: int| 0 <= i < cs.len() && completes_sets(g@, cs[i], ts)
                        && #[trigger] spec_reachable(g@, cs[i], spec_recomb(k as nat)).contains(y);
                    assert(key_set(complete@).contains(cs[i]));
                }
                if reached_from_completions(g@, k as nat, ts).contains(y) {
                    let t1 = choose|t1: TilingView| complete_tilings(g@, k as nat).contains(t1) && completes_sets(g@, t1, ts)
                        && #[trigger] spec_reachable(g@, t1, spec_recomb(k as nat)).contains(y);
                    assert(key_set(complete@).contains(t1));
                    let i = choose|i: int| 0 <= i < cs.len() && cs[i] == t1;
                    assert(seen_upto(g@, k as nat, ts, cs, cs.len() as int).contains(y));
                }
            }
        }
    }
    let all_seen = all_in(&complete, &seen);
    proof {
        if all_seen {
            assert forall|t2: TilingView| #[trigger] complete_tilings(g@, k as nat).contains(t2) implies reached_from_completions(g@, k as nat, ts).contains(t2) by {
                assert(key_set(complete@).contains(t2));
                let i = choose|i: int| 0 <= i < cs.len() && cs[i] == t2;
                assert(seen_all.contains(cs[i]));
            }
        } else {
            let i = choose|i: int| 0 <= i < cs.len() && !seen_all.contains(#[trigger] cs[i]);
            assert(key_set(complete@).contains(cs[i]));
        }
        lemma_happy_iff(g@, k as nat, ts);
    }
    all_seen
}

/// Whether every tiling of `v` is in the key set `s`.
fn all_in<'g>(v: &Vec<Tiling<'g>>, s: &Vec<Tiling<'g>>) -> (r: bool)
    requires
        is_key_set(s@),
    ensures
        r == forall|i: int| 0 <= i < v@.len() ==> key_set(s@).contains(#[trigger] views(v@)[i]),
{
    let mut b: usize = 0;
    while b < v.len()
        invariant
            b <= v@.len(),
            is_key_set(s@),
            forall|i: int| 0 <= i < b ==> key_set(s@).contains(#[trigger] views(v@)[i]),
        decreases v@.len() - b,
    {
        proof {
            assert(views(v@)[b as int] == v@[b as int]@);
        }
        if !contains_key(s, &v[b]) {
            return false;
        }
        b = b + 1;
    }
    true
}

/// Whether, for every cover of `base` by tiles of size `tile_size` within
/// `allowed_in_covers`, the metagraph of the cover reaches, in each of its
/// connected components, a completion of the partial tiling.
pub fn check_happy_cover(base: &Graph, allowed_in_covers: &Graph, partial_tiling: &BTreeMap<Node, Color>, tile_size: usize) -> (r: bool)
    requires
        base.wf(),
        allowed_in_covers.wf(),
        cover_inputs(base@, allowed_in_covers@, tile_size as nat),
        room_for_tiles(allowed_in_covers@, tile_size as nat),
        diffs_fit(allowed_in_covers@),
        forall|n: Node| #[trigger] partial_tiling@.contains_key(n) ==> partial_tile(partial_tiling@, partial_tiling@[n]).len() == tile_size,
        potential_covers(allowed_in_covers@, base@, tile_size as nat) != Set::<u128>::empty(),
    ensures
        r == forall|c: u128| #[trigger] potential_covers(allowed_in_covers@, base@, tile_size as nat).contains(c)
            ==> spec_happy(decode(c, allowed_in_covers@), tile_size as nat, partial_tiles(partial_tiling@)),
{
    let ghost u = allowed_in_covers@;
    let ghost k = tile_size as nat;
    let ghost pts = partial_tiles(partial_tiling@);
    let tiles = partial_tile_set(partial_tiling, tile_size);
    let no_counterexamples: Vec<Region> = Vec::new();
    proof {
        lemma_no_counterexamples(u, base@, k);
        assert(views(no_counterexamples@).to_set() =~= Set::<Seq<Node>>::empty());
    }
    let covers = match Tiling::min_covers(base, allowed_in_covers, tile_size, &no_counterexamples) {
        Some(v) => v,
        None => {
            proof {
                assert(false);
            }
            return false;
        },
    };
    let ghost cset = potential_covers(u, base@, k);
    proof {
        assert(key_set(covers@) == cset);
    }
    let mut i: usize = 0;
    while i < covers.len()
        invariant
            i <= covers@.len(),
            u == allowed_in_covers@,
            k == tile_size as nat,
            pts == partial_tiles(partial_tiling@),
            tile_sets(tiles@) == pts,
            forall|j: int| 0 <= j < tiles@.len() ==> (#[trigger] tiles@[j])@.len() > 0,
            allowed_in_covers.wf(),
            cover_inputs(base@, u, k),
            room_for_tiles(u, k),
            diffs_fit(u),
            key_set(covers@) == cset,
            cset == potential_covers(u, base@, k),
            forall|j: int| 0 <= j < i ==> spec_happy(decode(#[trigger] views(covers@)[j], u), k, pts),
        decreases covers@.len() - i,
    {
        let c = covers[i];
        proof {
            assert(views(covers@)[i as int] == c@);
            assert(cset.contains(c@));
            lemma_cover_fits(c@, u, base@, k);
        }
        let region = c.to_region(allowed_in_covers);
        let g = Graph::from(region);
        if !cover_is_happy(&g, &tiles, tile_size) {
            proof {
                assert(!spec_happy(decode(c@, u), k, pts));
            }
            return false;
        }
        i = i + 1;
    }
    proof {
        assert forall|c: u128| #[trigger] cset.contains(c) implies spec_happy(decode(c, u), k, pts) by {
            assert(key_set(covers@).contains(c));
            let j = choose|j: int| 0 <= j < views(covers@).len() && views(covers@)[j] == c;
        }
    }
    true
}

/// A cover lies in the universe, so it meets what checking it asks.
pub(crate) proof fn lemma_cover_fits(c: u128, u: Seq<Node>, g: Seq<Node>, k: nat)
    requires
        cover_inputs(g, u, k),
        room_for_tiles(u, k),
        diffs_fit(u),
        covers_graph(c, u, g),
    ensures
        strictly_sorted_nodes(decode(c, u)),
        0 < decode(c, u).len() <= 254,
        room_for_tiles(decode(c, u), k),
        diffs_fit(decode(c, u)),
{
    let d = decode(c, u);
    lemma_decode_in_universe(c, u);
    crate::covers::lemma_count_bits_le(c, u.len());
    assert(d.contains(g[0]));
    assert forall|i: int| 0 <= i < d.len() implies #[trigger] d[i].0 + k <= 128 && d[i].1 - 2 * k >= -129 && d[i].1 + 2 * k <= 128 by {
        assert(u.contains(d[i]));
        let j = choose|j: int| 0 <= j < u.len() && u[j] == d[i];
        assert(u[j].0 + k <= 128 && u[j].1 - 2 * k >= -129 && u[j].1 + 2 * k <= 128);
    }
    assert forall|i: int| 0 <= i < d.len() implies (#[trigger] d[i]).0 > i8::MIN && d[i].1 > i8::MIN by {
        assert(u.contains(d[i]));
        let j = choose|j: int| 0 <= j < u.len() && u[j] == d[i];
        assert(u[j].0 > i8::MIN && u[j].1 > i8::MIN);
    }
    assert forall|i: int, j: int| 0 <= i < d.len() && 0 <= j < d.len() implies crate::node::sub_fits(#[trigger] d[i], #[trigger] d[j]) by {
        assert(u.contains(d[i]));
        assert(u.contains(d[j]));
        let a = choose|a: int| 0 <= a < u.len() && u[a] == d[i];
        let b = choose|b: int| 0 <= b < u.len() && u[b] == d[j];
        assert(crate::node::sub_fits(u[a], u[b]));
    }
}

} // verus!
