//! The cover search on bitsets: the neighbours of each node of the universe,
//! the nodes of the graph, and the placements of tiles at each node of the
//! graph, precomputed as bitsets of the universe.

use vstd::prelude::*;
use crate::node::{Node, neighbors, spec_neighbors, node_in_bounds, node_sub, add_fits, spec_add, spec_sub};
use crate::region::{Region, neighbor_set};
use crate::lattice::Graph;
use crate::compact::{CompactRegion, has_bit, decode, lemma_decode_in_universe, lemma_has_bit_ops, lemma_has_bit_single};
use crate::polyhex::bounded;
use crate::recomb::shift;
use crate::ordset::{is_key_set, key_set, views, insert_key};
use crate::sorting::strictly_sorted_nodes;
use crate::covers::{
    placement, placement_fits, encodes_set, cover_frontier, cover_children, cover_step, placed_at, tiles_ok, has_room,
    lemma_bits_equal, cover_inputs, cover_level, cover_reach, cover_levels_below, cover_level_ok, lemma_child_ok,
    lemma_cover_levels_empty, potential_covers, covers_graph,
};
use crate::tiling::Tiling;
use crate::polyhex::{spec_regions, regions, lemma_spec_regions};
use crate::compact::{bits, encodes};
use crate::reach::lemma_strict_no_duplicates;

verus! {

/// All nodes of `s` are in the universe `u`.
pub open spec fn in_universe(u: Seq<Node>, s: Seq<Node>) -> bool {
    forall|i: int| 0 <= i < s.len() ==> u.contains(#[trigger] s[i])
}

/// The bitsets of the placements at `n` of the tiles of `tiles` that lie in
/// the universe `u`.
pub open spec fn fitting_masks(n: Node, u: Seq<Node>, tiles: Set<Seq<Node>>) -> Set<u128> {
    Set::new(|m: u128| exists|tile: Seq<Node>, nt: Node| tiles.contains(tile) && tile.contains(nt)
        && in_universe(u, #[trigger] placement(n, tile, nt)) && encodes_set(m, placement(n, tile, nt).to_set(), u))
}

/// The fitting placements met before the pair `(ti, tj)` of a tile and one
/// of its nodes.
pub open spec fn masks_upto(n: Node, u: Seq<Node>, tiles: Seq<Seq<Node>>, ti: int, tj: int) -> Set<u128> {
    Set::new(|m: u128| exists|a: int, c: int| 0 <= a < tiles.len() && 0 <= c < tiles[a].len() && (a < ti || (a == ti && c < tj))
        && in_universe(u, #[trigger] placement(n, tiles[a], tiles[a][c])) && encodes_set(m, placement(n, tiles[a], tiles[a][c]).to_set(), u))
}

/// Translating a node by the difference of `n` and itself gives `n`.
proof fn lemma_add_sub(a: Node, n: Node)
    ensures
        spec_add(a, spec_sub(n, a)) == n,
{
    let (a0, a1, n0, n1) = (a.0, a.1, n.0, n.1);
    assert(((a0 + ((n0 - a0) as i8)) as i8) == n0) by (bit_vector);
    assert(((a1 + ((n1 - a1) as i8)) as i8) == n1) by (bit_vector);
}

/// The placement of `tile` that puts its node `nt` on `n` holds `n`.
proof fn lemma_placement_holds(n: Node, tile: Seq<Node>, nt: Node)
    requires
        tile.contains(nt),
    ensures
        placement(n, tile, nt).contains(n),
{
    let i = choose|i: int| 0 <= i < tile.len() && tile[i] == nt;
    lemma_add_sub(nt, n);
    assert(placement(n, tile, nt)[i] == n);
}

/// The bitset of the neighbours of `n` in the universe.
fn neighbor_mask(allowed: &Graph, n: &Node) -> (m: u128)
    requires
        allowed.wf(),
        allowed@.len() <= 128,
        strictly_sorted_nodes(allowed@),
        node_in_bounds(*n),
    ensures
        forall|j: int| #[trigger] has_bit(m, j) == (0 <= j < allowed@.len() && spec_neighbors(*n).contains(allowed@[j])),
{
    let ghost u = allowed@;
    proof {
        allowed.lemma_wf();
        lemma_strict_no_duplicates(u);
        lemma_has_bit_ops(0u128, 0u128);
    }
    let ns = neighbors(n);
    let mut m: u128 = 0;
    let mut q: usize = 0;
    while q < 6
        invariant
            q <= 6,
            u == allowed@,
            allowed.wf(),
            u.len() <= 128,
            u.no_duplicates(),
            ns@ == spec_neighbors(*n),
            forall|j: int| #[trigger] has_bit(m, j) == (0 <= j < u.len() && exists|l: int| 0 <= l < q && ns@[l] == u[j]),
        decreases 6 - q,
    {
        match allowed.get_index(&ns[q]) {
            Some(j) => {
                let ghost old_m = m;
                m = m | (1u128 << (j as u128));
                proof {
                    lemma_has_bit_ops(old_m, 1u128 << (j as u128));
                    lemma_has_bit_single(j as u128);
                    assert forall|j2: int| #[trigger] has_bit(m, j2) == (0 <= j2 < u.len() && exists|l: int| 0 <= l < q + 1 && ns@[l] == u[j2]) by {
                        if 0 <= j2 < u.len() && u[j2] == ns@[q as int] {
                            assert(j2 == j as int);
                        }
                        if has_bit(old_m, j2) {
                            let l = choose|l: int| 0 <= l < q && ns@[l] == u[j2];
                        }
                        if 0 <= j2 < u.len() && (exists|l: int| 0 <= l < q + 1 && ns@[l] == u[j2]) {
                            let l = choose|l: int| 0 <= l < q + 1 && ns@[l] == u[j2];
                            if l < q {
                                assert(has_bit(old_m, j2));
                            }
                        }
                    }
                }
            },
            None => {
                proof {
                    assert forall|j2: int| #[trigger] has_bit(m, j2) == (0 <= j2 < u.len() && exists|l: int| 0 <= l < q + 1 && ns@[l] == u[j2]) by {
                        if 0 <= j2 < u.len() && (exists|l: int| 0 <= l < q + 1 && ns@[l] == u[j2]) {
                            let l = choose|l: int| 0 <= l < q + 1 && ns@[l] == u[j2];
                            if l == q {
                                assert(u.contains(ns@[q as int]));
                            }
                        }
                    }
                }
            },
        }
        q = q + 1;
    }
    proof {
        assert forall|j: int| #[trigger] has_bit(m, j) == (0 <= j < u.len() && spec_neighbors(*n).contains(u[j])) by {
            if 0 <= j < u.len() && spec_neighbors(*n).contains(u[j]) {
                let l = choose|l: int| 0 <= l < 6 && spec_neighbors(*n)[l] == u[j];
            }
        }
    }
    m
}

/// The bitsets of the placements at `n` of the tiles of `tiles` that lie in
/// the universe, in increasing order.
fn placement_masks(n: Node, tiles: &Vec<Region>, k: usize, allowed: &Graph) -> (v: Vec<u128>)
    requires
        1 <= k <= 20,
        allowed.wf(),
        allowed@.len() <= 128,
        strictly_sorted_nodes(allowed@),
        tiles_ok(tiles@, k as nat),
        has_room(n, k as nat),
    ensures
        is_key_set(v@),
        key_set(v@) == fitting_masks(n, allowed@, views(tiles@).to_set()),
{
    let ghost u = allowed@;
    let ghost tv = views(tiles@);
    let mut v: Vec<u128> = Vec::new();
    proof {
        assert(masks_upto(n, u, tv, 0, 0) =~= Set::<u128>::empty());
        assert(key_set(v@) =~= masks_upto(n, u, tv, 0, 0));
    }
    let mut ti: usize = 0;
    while ti < tiles.len()
        invariant
            1 <= k <= 20,
            ti <= tiles@.len(),
            u == allowed@,
            tv == views(tiles@),
            allowed.wf(),
            u.len() <= 128,
            strictly_sorted_nodes(u),
            tiles_ok(tiles@, k as nat),
            has_room(n, k as nat),
            is_key_set(v@),
            key_set(v@) == masks_upto(n, u, tv, ti as int, 0),
        decreases tiles@.len() - ti,
    {
        let tile = &tiles[ti];
        let tnodes = tile.nodes();
        proof {
            assert(tv[ti as int] == tile@);
        }
        let mut tj: usize = 0;
        while tj < tnodes.len()
            invariant
                1 <= k <= 20,
                ti < tiles@.len(),
                tj <= tnodes@.len(),
                tnodes@ == tile@,
                tile == &tiles@[ti as int],
                u == allowed@,
                tv == views(tiles@),
                tv[ti as int] == tile@,
                allowed.wf(),
                u.len() <= 128,
                strictly_sorted_nodes(u),
                tiles_ok(tiles@, k as nat),
                has_room(n, k as nat),
                is_key_set(v@),
                key_set(v@) == masks_upto(n, u, tv, ti as int, tj as int),
            decreases tnodes@.len() - tj,
        {
            let nt = tnodes[tj];
            proof {
                assert(tile.wf());
                assert(bounded(tile@, k as nat));
                assert(0 <= nt.0 < k && -2 * k < nt.1 < 2 * k);
            }
            let offset = node_sub(n, nt);
            proof {
                assert forall|i: int| 0 <= i < tile@.len() implies add_fits(#[trigger] tile@[i], offset) by {
                    assert(0 <= tile@[i].0 < k && -2 * k < tile@[i].1 < 2 * k);
                }
            }
            let shifted = shift(offset, tile);
            let ghost pl = placement(n, tv[ti as int], tv[ti as int][tj as int]);
            proof {
                assert(shifted@ == pl);
            }
            let snodes = shifted.nodes();
            let mut ok: bool = true;
            let mut q: usize = 0;
            while q < snodes.len()
                invariant
                    q <= snodes@.len(),
                    snodes@ == shifted@,
                    allowed.wf(),
                    u == allowed@,
                    ok == forall|i: int| 0 <= i < q ==> u.contains(#[trigger] snodes@[i]),
                decreases snodes@.len() - q,
            {
                if !allowed.contains(&snodes[q]) {
                    ok = false;
                }
                q = q + 1;
            }
            if ok {
                let compact = CompactRegion::from(&shifted, allowed);
                let m = compact.bits();
                proof {
                    assert(encodes_set(m, pl.to_set(), u)) by {
                        assert forall|i: int| 0 <= i < 128 implies #[trigger] has_bit(m, i) == (i < u.len() && pl.to_set().contains(u[i])) by {
                            if i < u.len() {
                                assert(shifted@.contains(u[i]) == shifted@.to_set().contains(u[i]));
                            }
                        }
                    }
                }
                insert_key(&mut v, m);
                proof {
                    assert(masks_upto(n, u, tv, ti as int, tj + 1) =~= masks_upto(n, u, tv, ti as int, tj as int).insert(m)) by {
                        assert forall|x: u128| #[trigger] masks_upto(n, u, tv, ti as int, tj + 1).contains(x)
                            implies masks_upto(n, u, tv, ti as int, tj as int).insert(m).contains(x) by {
                            let (a2, c2) = choose|a2: int, c2: int| 0 <= a2 < tv.len() && 0 <= c2 < tv[a2].len() && (a2 < ti || (a2 == ti && c2 < tj + 1))
                                && in_universe(u, #[trigger] placement(n, tv[a2], tv[a2][c2]))
                                && encodes_set(x, placement(n, tv[a2], tv[a2][c2]).to_set(), u);
                            if a2 == ti && c2 == tj {
                                lemma_bits_equal(x, m);
                            }
                        }
                        assert forall|x: u128| masks_upto(n, u, tv, ti as int, tj as int).insert(m).contains(x)
                            implies #[trigger] masks_upto(n, u, tv, ti as int, tj + 1).contains(x) by {
                            if x == m {
                                assert(in_universe(u, placement(n, tv[ti as int], tv[ti as int][tj as int])));
                            } else {
                                let (a2, c2) = choose|a2: int, c2: int| 0 <= a2 < tv.len() && 0 <= c2 < tv[a2].len() && (a2 < ti || (a2 == ti && c2 < tj))
                                    && in_universe(u, #[trigger] placement(n, tv[a2], tv[a2][c2]))
                                    && encodes_set(x, placement(n, tv[a2], tv[a2][c2]).to_set(), u);
                            }
                        }
                    }
                }
            } else {
                proof {
                    assert(masks_upto(n, u, tv, ti as int, tj + 1) =~= masks_upto(n, u, tv, ti as int, tj as int)) by {
                        assert forall|x: u128| #[trigger] masks_upto(n, u, tv, ti as int, tj + 1).contains(x)
                            implies masks_upto(n, u, tv, ti as int, tj as int).contains(x) by {
                            let (a2, c2) = choose|a2: int, c2: int| 0 <= a2 < tv.len() && 0 <= c2 < tv[a2].len() && (a2 < ti || (a2 == ti && c2 < tj + 1))
                                && in_universe(u, #[trigger] placement(n, tv[a2], tv[a2][c2]))
                                && encodes_set(x, placement(n, tv[a2], tv[a2][c2]).to_set(), u);
                            if a2 == ti && c2 == tj {
                                assert(false);
                            }
                        }
                        assert forall|x: u128| #[trigger] masks_upto(n, u, tv, ti as int, tj as int).contains(x)
                            implies masks_upto(n, u, tv, ti as int, tj + 1).contains(x) by {
                            let (a2, c2) = choose|a2: int, c2: int| 0 <= a2 < tv.len() && 0 <= c2 < tv[a2].len() && (a2 < ti || (a2 == ti && c2 < tj))
                                && in_universe(u, #[trigger] placement(n, tv[a2], tv[a2][c2]))
                                && encodes_set(x, placement(n, tv[a2], tv[a2][c2]).to_set(), u);
                        }
                    }
                }
            }
            tj = tj + 1;
        }
        proof {
            assert(masks_upto(n, u, tv, ti as int, tnodes@.len() as int) =~= masks_upto(n, u, tv, ti + 1, 0)) by {
                assert forall|x: u128| #[trigger] masks_upto(n, u, tv, ti as int, tnodes@.len() as int).contains(x)
                    == masks_upto(n, u, tv, ti + 1, 0).contains(x) by {
                    if masks_upto(n, u, tv, ti as int, tnodes@.len() as int).contains(x) {
                        let (a2, c2) = choose|a2: int, c2: int| 0 <= a2 < tv.len() && 0 <= c2 < tv[a2].len() && (a2 < ti || (a2 == ti && c2 < tnodes@.len()))
                            && in_universe(u, #[trigger] placement(n, tv[a2], tv[a2][c2]))
                            && encodes_set(x, placement(n, tv[a2], tv[a2][c2]).to_set(), u);
                        assert(masks_upto(n, u, tv, ti + 1, 0).contains(x));
                    }
                    if masks_upto(n, u, tv, ti + 1, 0).contains(x) {
                        let (a2, c2) = choose|a2: int, c2: int| 0 <= a2 < tv.len() && 0 <= c2 < tv[a2].len() && (a2 < ti + 1 || (a2 == ti + 1 && c2 < 0))
                            && in_universe(u, #[trigger] placement(n, tv[a2], tv[a2][c2]))
                            && encodes_set(x, placement(n, tv[a2], tv[a2][c2]).to_set(), u);
                        assert(masks_upto(n, u, tv, ti as int, tnodes@.len() as int).contains(x));
                    }
                }
            }
        }
        ti = ti + 1;
    }
    proof {
        assert(masks_upto(n, u, tv, tv.len() as int, 0) =~= fitting_masks(n, u, tv.to_set())) by {
            assert forall|x: u128| #[trigger] masks_upto(n, u, tv, tv.len() as int, 0).contains(x) == fitting_masks(n, u, tv.to_set()).contains(x) by {
                if masks_upto(n, u, tv, tv.len() as int, 0).contains(x) {
                    let (a2, c2) = choose|a2: int, c2: int| 0 <= a2 < tv.len() && 0 <= c2 < tv[a2].len() && (a2 < tv.len() || (a2 == tv.len() && c2 < 0))
                        && in_universe(u, #[trigger] placement(n, tv[a2], tv[a2][c2]))
                        && encodes_set(x, placement(n, tv[a2], tv[a2][c2]).to_set(), u);
                    assert(tv.to_set().contains(tv[a2]));
                    assert(tv[a2].contains(tv[a2][c2]));
                }
                if fitting_masks(n, u, tv.to_set()).contains(x) {
                    let (tile, nt) = choose|tile: Seq<Node>, nt: Node| tv.to_set().contains(tile) && tile.contains(nt)
                        && in_universe(u, #[trigger] placement(n, tile, nt)) && encodes_set(x, placement(n, tile, nt).to_set(), u);
                    let a2 = choose|a2: int| 0 <= a2 < tv.len() && tv[a2] == tile;
                    let c2 = choose|c2: int| 0 <= c2 < tile.len() && tile[c2] == nt;
                    assert(in_universe(u, placement(n, tv[a2], tv[a2][c2])));
                }
            }
        }
    }
    v
}

/// The bitsets that the cover search of the graph `g` within the universe
/// works with.
struct CoverMasks {
    /// for each node of the universe, its neighbours
    neighbor_masks: Vec<u128>,
    /// the nodes of the graph
    g_mask: u128,
    /// the first node of the graph, where the search starts
    seed: u128,
    /// for each node of the universe that is in the graph, the placements
    /// of tiles over it that lie in the universe
    tile_masks: Vec<Vec<u128>>,
}

impl CoverMasks {
    spec fn wf(&self, u: Seq<Node>, g: Seq<Node>, tiles: Set<Seq<Node>>) -> bool {
        &&& self.neighbor_masks@.len() == u.len()
        &&& forall|i: int, j: int| 0 <= i < u.len() ==> #[trigger] has_bit(self.neighbor_masks@[i], j)
            == (0 <= j < u.len() && spec_neighbors(u[i]).contains(u[j]))
        &&& forall|j: int| #[trigger] has_bit(self.g_mask, j) == (0 <= j < u.len() && g.contains(u[j]))
        &&& forall|j: int| #[trigger] has_bit(self.seed, j) == (0 <= j < u.len() && u[j] == g[0])
        &&& self.tile_masks@.len() == u.len()
        &&& forall|j: int| 0 <= j < u.len() ==> is_key_set(#[trigger] self.tile_masks@[j]@)
        &&& forall|j: int| 0 <= j < u.len() && g.contains(u[j]) ==> key_set(#[trigger] self.tile_masks@[j]@) == fitting_masks(u[j], u, tiles)
    }

    /// Precomputes the bitsets for the graph `g` within `allowed`.
    fn new(g: &Graph, allowed: &Graph, tiles: &Vec<Region>, k: usize) -> (cm: CoverMasks)
        requires
            g.wf(),
            allowed.wf(),
            crate::covers::cover_inputs(g@, allowed@, k as nat),
            tiles_ok(tiles@, k as nat),
        ensures
            cm.wf(allowed@, g@, views(tiles@).to_set()),
    {
        let ghost u = allowed@;
        let ghost ts = views(tiles@).to_set();
        proof {
            allowed.lemma_wf();
            g.lemma_wf();
            lemma_strict_no_duplicates(u);
            lemma_has_bit_ops(0u128, 0u128);
        }
        let nodes = allowed.nodes();
        let mut neighbor_masks: Vec<u128> = Vec::new();
        let mut tile_masks: Vec<Vec<u128>> = Vec::new();
        let mut i: usize = 0;
        while i < nodes.len()
            invariant
                i <= nodes@.len(),
                nodes@ == u,
                u == allowed@,
                ts == views(tiles@).to_set(),
                allowed.wf(),
                g.wf(),
                crate::covers::cover_inputs(g@, u, k as nat),
                tiles_ok(tiles@, k as nat),
                neighbor_masks@.len() == i,
                tile_masks@.len() == i,
                forall|a: int, j: int| 0 <= a < i ==> #[trigger] has_bit(neighbor_masks@[a], j)
                    == (0 <= j < u.len() && spec_neighbors(u[a]).contains(u[j])),
                forall|a: int| 0 <= a < i ==> is_key_set(#[trigger] tile_masks@[a]@),
                forall|a: int| 0 <= a < i && g@.contains(u[a]) ==> key_set(#[trigger] tile_masks@[a]@) == fitting_masks(u[a], u, ts),
            decreases nodes@.len() - i,
        {
            let n = nodes[i];
            proof {
                assert(node_in_bounds(u[i as int]));
            }
            let m = neighbor_mask(allowed, &n);
            neighbor_masks.push(m);
            if g.contains(&n) {
                proof {
                    let l = choose|l: int| 0 <= l < g@.len() && g@[l] == n;
                    assert(has_room(g@[l], k as nat));
                }
                let pm = placement_masks(n, tiles, k, allowed);
                tile_masks.push(pm);
            } else {
                let empty: Vec<u128> = Vec::new();
                tile_masks.push(empty);
            }
            proof {
                assert forall|a: int, j: int| 0 <= a < i + 1 implies #[trigger] has_bit(neighbor_masks@[a], j)
                    == (0 <= j < u.len() && spec_neighbors(u[a]).contains(u[j])) by {
                    if a < i {
                        assert(has_bit(neighbor_masks@[a], j) == (0 <= j < u.len() && spec_neighbors(u[a]).contains(u[j])));
                    }
                }
            }
            i = i + 1;
        }
        let gnodes = g.nodes();
        let mut g_mask: u128 = 0;
        let mut a: usize = 0;
        while a < gnodes.len()
            invariant
                a <= gnodes@.len(),
                gnodes@ == g@,
                u == allowed@,
                allowed.wf(),
                crate::covers::cover_inputs(g@, u, k as nat),
                u.no_duplicates(),
                forall|j: int| #[trigger] has_bit(g_mask, j) == (0 <= j < u.len() && exists|l: int| 0 <= l < a && g@[l] == u[j]),
            decreases gnodes@.len() - a,
        {
            proof {
                assert(u.contains(g@[a as int]));
                allowed.lemma_wf();
            }
            let j = allowed.get_index(&gnodes[a]).unwrap();
            let ghost old_m = g_mask;
            g_mask = g_mask | (1u128 << (j as u128));
            proof {
                lemma_has_bit_ops(old_m, 1u128 << (j as u128));
                lemma_has_bit_single(j as u128);
                assert forall|j2: int| #[trigger] has_bit(g_mask, j2) == (0 <= j2 < u.len() && exists|l: int| 0 <= l < a + 1 && g@[l] == u[j2]) by {
                    if 0 <= j2 < u.len() && u[j2] == g@[a as int] {
                        assert(j2 == j as int);
                    }
                    if has_bit(old_m, j2) {
                        let l = choose|l: int| 0 <= l < a && g@[l] == u[j2];
                    }
                    if 0 <= j2 < u.len() && (exists|l: int| 0 <= l < a + 1 && g@[l] == u[j2]) {
                        let l = choose|l: int| 0 <= l < a + 1 && g@[l] == u[j2];
                        if l < a {
                            assert(has_bit(old_m, j2));
                        }
                    }
                }
            }
            a = a + 1;
        }
        proof {
            assert forall|j: int| #[trigger] has_bit(g_mask, j) == (0 <= j < u.len() && g@.contains(u[j])) by {
                if 0 <= j < u.len() && g@.contains(u[j]) {
                    let l = choose|l: int| 0 <= l < g@.len() && g@[l] == u[j];
                }
            }
            assert(u.contains(g@[0]));
        }
        let s = allowed.get_index(&gnodes[0]).unwrap();
        let seed: u128 = 1u128 << (s as u128);
        proof {
            lemma_has_bit_single(s as u128);
            assert forall|j: int| #[trigger] has_bit(seed, j) == (0 <= j < u.len() && u[j] == g@[0]) by {
                if 0 <= j < u.len() && u[j] == g@[0] {
                    assert(j == s as int);
                }
            }
        }
        CoverMasks { neighbor_masks, g_mask, seed, tile_masks }
    }
}

/// `x` is a neighbour of a node of the universe whose bit is set in `b`.
pub open spec fn touches(b: u128, u: Seq<Node>, x: Node) -> bool {
    exists|i: int| 0 <= i < u.len() && has_bit(b, i) && #[trigger] spec_neighbors(u[i]).contains(x)
}

/// The nodes of the universe at which the search places the next tile:
/// the first node of the graph for the empty region, else the neighbours of
/// the region in the graph outside the region.
pub open spec fn frontier_at(b: u128, u: Seq<Node>, g: Seq<Node>, j: int) -> bool {
    if b == 0 {
        u[j] == g[0]
    } else {
        cover_frontier(b, u, g).contains(u[j]) && !has_bit(b, j)
    }
}

proof fn lemma_neighbor_set_bits(b: u128, u: Seq<Node>)
    ensures
        forall|x: Node| #[trigger] neighbor_set(decode(b, u)).contains(x) == touches(b, u, x),
{
    lemma_decode_in_universe(b, u);
    let d = decode(b, u);
    assert forall|x: Node| #[trigger] neighbor_set(d).contains(x) == touches(b, u, x) by {
        if neighbor_set(d).contains(x) {
            let (ii, kk) = choose|ii: int, kk: int| 0 <= ii < d.len() && 0 <= kk < 6 && #[trigger] spec_neighbors(d[ii])[kk] == x;
            assert(d.contains(d[ii]));
            let i = choose|i: int| 0 <= i < u.len() && has_bit(b, i) && u[i] == d[ii];
            assert(spec_neighbors(u[i]).contains(x));
        }
        if touches(b, u, x) {
            let i = choose|i: int| 0 <= i < u.len() && has_bit(b, i) && #[trigger] spec_neighbors(u[i]).contains(x);
            assert(d.contains(u[i]));
            let ii = choose|ii: int| 0 <= ii < d.len() && d[ii] == u[i];
            let kk = choose|kk: int| 0 <= kk < 6 && spec_neighbors(u[i])[kk] == x;
            assert(spec_neighbors(d[ii])[kk] == x);
        }
    }
}

impl CoverMasks {
    /// The bitset of the nodes where the next tile of the region `b` goes.
    fn frontier(&self, b: u128, Ghost(u): Ghost<Seq<Node>>, Ghost(g): Ghost<Seq<Node>>, Ghost(ts): Ghost<Set<Seq<Node>>>) -> (f: u128)
        requires
            self.wf(u, g, ts),
            u.len() <= 128,
            forall|i: int| #[trigger] has_bit(b, i) ==> i < u.len(),
        ensures
            forall|j: int| #[trigger] has_bit(f, j) == (0 <= j < u.len() && frontier_at(b, u, g, j)),
    {
        if b == 0 {
            return self.seed;
        }
        proof {
            lemma_has_bit_ops(0u128, 0u128);
        }
        let mut acc: u128 = 0;
        let mut i: usize = 0;
        while i < self.neighbor_masks.len()
            invariant
                i <= u.len(),
                self.wf(u, g, ts),
                u.len() <= 128,
                forall|j: int| #[trigger] has_bit(acc, j) == (0 <= j < u.len()
                    && exists|i2: int| 0 <= i2 < i && has_bit(b, i2) && #[trigger] spec_neighbors(u[i2]).contains(u[j])),
            decreases u.len() - i,
        {
            if (b >> (i as u128)) & 1u128 == 1u128 {
                let ghost old_acc = acc;
                acc = acc | self.neighbor_masks[i];
                proof {
                    assert(has_bit(b, i as int));
                    lemma_has_bit_ops(old_acc, self.neighbor_masks@[i as int]);
                    assert forall|j: int| #[trigger] has_bit(acc, j) == (0 <= j < u.len()
                        && exists|i2: int| 0 <= i2 < i + 1 && has_bit(b, i2) && #[trigger] spec_neighbors(u[i2]).contains(u[j])) by {
                        if has_bit(self.neighbor_masks@[i as int], j) {
                            assert(spec_neighbors(u[i as int]).contains(u[j]));
                        }
                        if 0 <= j < u.len() && exists|i2: int| 0 <= i2 < i + 1 && has_bit(b, i2) && #[trigger] spec_neighbors(u[i2]).contains(u[j]) {
                            let i2 = choose|i2: int| 0 <= i2 < i + 1 && has_bit(b, i2) && #[trigger] spec_neighbors(u[i2]).contains(u[j]);
                            if i2 < i {
                                assert(has_bit(old_acc, j));
                            } else {
                                assert(has_bit(self.neighbor_masks@[i as int], j));
                            }
                        }
                    }
                }
            } else {
                proof {
                    assert(!has_bit(b, i as int));
                    assert forall|j: int| #[trigger] has_bit(acc, j) == (0 <= j < u.len()
                        && exists|i2: int| 0 <= i2 < i + 1 && has_bit(b, i2) && #[trigger] spec_neighbors(u[i2]).contains(u[j])) by {
                        if 0 <= j < u.len() && exists|i2: int| 0 <= i2 < i + 1 && has_bit(b, i2) && #[trigger] spec_neighbors(u[i2]).contains(u[j]) {
                            let i2 = choose|i2: int| 0 <= i2 < i + 1 && has_bit(b, i2) && #[trigger] spec_neighbors(u[i2]).contains(u[j]);
                            assert(i2 < i);
                        }
                    }
                }
            }
            i = i + 1;
        }
        let f = acc & self.g_mask & !b;
        proof {
            lemma_has_bit_ops(acc, self.g_mask);
            lemma_has_bit_ops(acc & self.g_mask, b);
            lemma_neighbor_set_bits(b, u);
            assert forall|j: int| #[trigger] has_bit(f, j) == (0 <= j < u.len() && frontier_at(b, u, g, j)) by {
                if 0 <= j < u.len() {
                    assert(has_bit(acc, j) == touches(b, u, u[j]));
                    assert(neighbor_set(decode(b, u)).contains(u[j]) == touches(b, u, u[j]));
                }
            }
        }
        f
    }
}

/// The regions `b | ms[q2]` for the first `q` masks that miss `b`.
pub open spec fn grown_by_masks(b: u128, ms: Seq<u128>, q: int) -> Set<u128> {
    Set::new(|b2: u128| exists|q2: int| 0 <= q2 < q && b & ms[q2] == 0 && b2 == b | ms[q2])
}

/// The regions that grow `b` by one of the fitting placements at a node of
/// the frontier that misses `b`.
pub open spec fn mask_kids(b: u128, u: Seq<Node>, g: Seq<Node>, tiles: Set<Seq<Node>>, j: int) -> Set<u128> {
    Set::new(|b2: u128| exists|j2: int, m: u128| 0 <= j2 < j && frontier_at(b, u, g, j2)
        && #[trigger] fitting_masks(u[j2], u, tiles).contains(m) && b & m == 0 && b2 == b | m)
}

/// Growing by the fitting placements at the frontier gives exactly the
/// children of the region in the search.
proof fn lemma_mask_kids(b: u128, u: Seq<Node>, g: Seq<Node>, tiles: Set<Seq<Node>>)
    requires
        strictly_sorted_nodes(u),
        u.len() <= 128,
        g.len() > 0,
        forall|i: int| 0 <= i < g.len() ==> u.contains(#[trigger] g[i]),
        forall|i: int| #[trigger] has_bit(b, i) ==> i < u.len(),
    ensures
        mask_kids(b, u, g, tiles, u.len() as int) == cover_children(b, u, g, tiles),
{
    lemma_strict_no_duplicates(u);
    lemma_decode_in_universe(b, u);
    let d = decode(b, u);
    // a bit of `b` is a node of the region
    assert forall|i: int| 0 <= i < u.len() implies #[trigger] has_bit(b, i) == d.contains(u[i]) by {
        if d.contains(u[i]) {
            let i2 = choose|i2: int| 0 <= i2 < u.len() && has_bit(b, i2) && u[i2] == u[i];
        }
    }
    assert forall|b2: u128| #[trigger] mask_kids(b, u, g, tiles, u.len() as int).contains(b2) == cover_children(b, u, g, tiles).contains(b2) by {
        if mask_kids(b, u, g, tiles, u.len() as int).contains(b2) {
            let (j, m) = choose|j: int, m: u128| 0 <= j < u.len() && frontier_at(b, u, g, j)
                && #[trigger] fitting_masks(u[j], u, tiles).contains(m) && b & m == 0 && b2 == b | m;
            let (tile, nt) = choose|tile: Seq<Node>, nt: Node| tiles.contains(tile) && tile.contains(nt)
                && in_universe(u, #[trigger] placement(u[j], tile, nt)) && encodes_set(m, placement(u[j], tile, nt).to_set(), u);
            let p = placement(u[j], tile, nt);
            lemma_has_bit_ops(b, m);
            assert(cover_frontier(b, u, g).contains(u[j])) by {
                if b == 0 {
                    assert(u[j] == g[0]);
                }
            }
            assert(placement_fits(b, u, p)) by {
                assert forall|i: int| 0 <= i < p.len() implies !d.contains(#[trigger] p[i]) && u.contains(p[i]) by {
                    assert(u.contains(p[i]));
                    if d.contains(p[i]) {
                        let x = choose|x: int| 0 <= x < u.len() && has_bit(b, x) && u[x] == p[i];
                        assert(p.to_set().contains(p[i]));
                        assert(has_bit(m, x));
                        assert(has_bit(b & m, x));
                    }
                }
            }
            assert(encodes_set(b2, d.to_set() + p.to_set(), u)) by {
                assert forall|i: int| 0 <= i < 128 implies #[trigger] has_bit(b2, i) == (i < u.len() && (d.to_set() + p.to_set()).contains(u[i])) by {
                    if i < u.len() {
                        assert(d.contains(u[i]) == d.to_set().contains(u[i]));
                    }
                }
            }
            assert(placed_at(b, b2, u[j], u, tiles));
            assert(cover_step(b, b2, u, g, tiles));
        }
        if cover_children(b, u, g, tiles).contains(b2) {
            let n = choose|n: Node| #[trigger] cover_frontier(b, u, g).contains(n) && placed_at(b, b2, n, u, tiles);
            let (tile, nt) = choose|tile: Seq<Node>, nt: Node| tiles.contains(tile) && tile.contains(nt)
                && placement_fits(b, u, #[trigger] placement(n, tile, nt))
                && encodes_set(b2, d.to_set() + placement(n, tile, nt).to_set(), u);
            let p = placement(n, tile, nt);
            assert(g.contains(n)) by {
                if b == 0 {
                    assert(g[0] == n);
                }
            }
            let gi = choose|gi: int| 0 <= gi < g.len() && g[gi] == n;
            assert(u.contains(g[gi]));
            let j = choose|j: int| 0 <= j < u.len() && u[j] == n;
            lemma_placement_holds(n, tile, nt);
            let pi = choose|pi: int| 0 <= pi < p.len() && p[pi] == n;
            assert(!d.contains(p[pi]));
            assert(frontier_at(b, u, g, j));
            let m = b2 & !b;
            lemma_has_bit_ops(b2, b);
            let mm = b2 & !b;
            lemma_has_bit_ops(b, mm);
            assert(encodes_set(m, p.to_set(), u)) by {
                assert forall|i: int| 0 <= i < 128 implies #[trigger] has_bit(m, i) == (i < u.len() && p.to_set().contains(u[i])) by {
                    if i < u.len() {
                        assert(d.contains(u[i]) == d.to_set().contains(u[i]));
                        if p.to_set().contains(u[i]) {
                            let q = choose|q: int| 0 <= q < p.len() && p[q] == u[i];
                            assert(!d.contains(p[q]));
                        }
                    }
                }
            }
            assert(in_universe(u, p)) by {
                assert forall|i: int| 0 <= i < p.len() implies u.contains(#[trigger] p[i]) by {
                    assert(!d.contains(p[i]) && u.contains(p[i]));
                }
            }
            assert(fitting_masks(u[j], u, tiles).contains(m));
            assert(b & m == 0) by {
                assert forall|i: int| 0 <= i < 128 implies #[trigger] has_bit(b & m, i) == has_bit(0u128, i) by {}
                lemma_bits_equal(b & m, 0u128);
            }
            assert(b | m == b2) by {
                assert forall|i: int| 0 <= i < 128 implies #[trigger] has_bit(b | m, i) == has_bit(b2, i) by {
                    if has_bit(b, i) {
                        assert(d.contains(u[i]));
                        assert(d.to_set().contains(u[i]));
                    }
                }
                lemma_bits_equal(b | m, b2);
            }
        }
    }
    assert(mask_kids(b, u, g, tiles, u.len() as int) =~= cover_children(b, u, g, tiles));
}

impl CoverMasks {
    /// Adds to `next` the regions that grow `b` by one tile at its frontier.
    fn add_children(&self, b: u128, Ghost(u): Ghost<Seq<Node>>, Ghost(g): Ghost<Seq<Node>>, Ghost(ts): Ghost<Set<Seq<Node>>>, next: &mut Vec<CompactRegion>)
        requires
            self.wf(u, g, ts),
            u.len() <= 128,
            strictly_sorted_nodes(u),
            g.len() > 0,
            forall|i: int| 0 <= i < g.len() ==> u.contains(#[trigger] g[i]),
            forall|i: int| #[trigger] has_bit(b, i) ==> i < u.len(),
            is_key_set(old(next)@),
        ensures
            is_key_set(final(next)@),
            key_set(final(next)@) == key_set(old(next)@) + cover_children(b, u, g, ts),
    {
        let f = self.frontier(b, Ghost(u), Ghost(g), Ghost(ts));
        proof {
            assert(mask_kids(b, u, g, ts, 0) =~= Set::<u128>::empty());
            assert(key_set(next@) =~= key_set(old(next)@) + mask_kids(b, u, g, ts, 0));
        }
        let mut j: usize = 0;
        while j < self.tile_masks.len()
            invariant
                j <= u.len(),
                self.wf(u, g, ts),
                u.len() <= 128,
                g.len() > 0,
                forall|j2: int| #[trigger] has_bit(f, j2) == (0 <= j2 < u.len() && frontier_at(b, u, g, j2)),
                is_key_set(next@),
                key_set(next@) == key_set(old(next)@) + mask_kids(b, u, g, ts, j as int),
            decreases u.len() - j,
        {
            if (f >> (j as u128)) & 1u128 == 1u128 {
                proof {
                    assert(has_bit(f, j as int));
                    assert(g.contains(u[j as int])) by {
                        if b == 0 {
                            assert(u[j as int] == g[0]);
                        }
                    }
                }
                let masks = &self.tile_masks[j];
                let ghost before = key_set(next@);
                let mut q: usize = 0;
                while q < masks.len()
                    invariant
                        q <= masks@.len(),
                        j < u.len(),
                        u.len() == self.tile_masks@.len(),
                        masks@ == self.tile_masks@[j as int]@,
                        key_set(next@) == before + grown_by_masks(b, masks@, q as int),
                        is_key_set(next@),
                    decreases masks@.len() - q,
                {
                    let m = masks[q];
                    if b & m == 0 {
                        insert_key(next, CompactRegion::from_bits(b | m));
                    }
                    proof {
                        assert(key_set(next@) =~= before + grown_by_masks(b, masks@, q + 1)) by {
                            assert forall|b2: u128| #[trigger] grown_by_masks(b, masks@, q + 1).contains(b2) && !before.contains(b2)
                                implies key_set(next@).contains(b2) by {
                                let q2 = choose|q2: int| 0 <= q2 < q + 1 && b & masks@[q2] == 0 && b2 == b | masks@[q2];
                                if q2 < q {
                                    assert(grown_by_masks(b, masks@, q as int).contains(b2));
                                }
                            }
                            assert forall|b2: u128| #[trigger] grown_by_masks(b, masks@, q as int).contains(b2)
                                implies grown_by_masks(b, masks@, q + 1).contains(b2) by {
                                let q2 = choose|q2: int| 0 <= q2 < q && b & masks@[q2] == 0 && b2 == b | masks@[q2];
                            }
                        }
                    }
                    q = q + 1;
                }
                proof {
                    let ms = self.tile_masks@[j as int]@;
                    assert(key_set(ms) == fitting_masks(u[j as int], u, ts));
                    assert(key_set(next@) =~= key_set(old(next)@) + mask_kids(b, u, g, ts, j + 1)) by {
                        assert forall|b2: u128| #[trigger] key_set(next@).contains(b2) == (key_set(old(next)@) + mask_kids(b, u, g, ts, j + 1)).contains(b2) by {
                            if key_set(next@).contains(b2) && !before.contains(b2) {
                                let q2 = choose|q2: int| 0 <= q2 < masks@.len() && b & masks@[q2] == 0 && b2 == b | masks@[q2];
                                assert(views(ms)[q2] == ms[q2]);
                                assert(key_set(ms).contains(ms[q2]));
                                assert(fitting_masks(u[j as int], u, ts).contains(masks@[q2]));
                            }
                            if mask_kids(b, u, g, ts, j + 1).contains(b2) && !mask_kids(b, u, g, ts, j as int).contains(b2) {
                                let (j2, m) = choose|j2: int, m: u128| 0 <= j2 < j + 1 && frontier_at(b, u, g, j2)
                                    && #[trigger] fitting_masks(u[j2], u, ts).contains(m) && b & m == 0 && b2 == b | m;
                                assert(j2 == j);
                                assert(key_set(ms).contains(m));
                                let q2 = choose|q2: int| 0 <= q2 < views(ms).len() && views(ms)[q2] == m;
                                assert(ms[q2] == m);
                                assert(grown_by_masks(b, masks@, masks@.len() as int).contains(b2));
                            }
                            if mask_kids(b, u, g, ts, j as int).contains(b2) {
                                let (j2, m) = choose|j2: int, m: u128| 0 <= j2 < j && frontier_at(b, u, g, j2)
                                    && #[trigger] fitting_masks(u[j2], u, ts).contains(m) && b & m == 0 && b2 == b | m;
                            }
                        }
                    }
                }
            } else {
                proof {
                    assert(!has_bit(f, j as int));
                    assert(mask_kids(b, u, g, ts, j + 1) =~= mask_kids(b, u, g, ts, j as int)) by {
                        assert forall|b2: u128| #[trigger] mask_kids(b, u, g, ts, j + 1).contains(b2) implies mask_kids(b, u, g, ts, j as int).contains(b2) by {
                            let (j2, m) = choose|j2: int, m: u128| 0 <= j2 < j + 1 && frontier_at(b, u, g, j2)
                                && #[trigger] fitting_masks(u[j2], u, ts).contains(m) && b & m == 0 && b2 == b | m;
                            assert(j2 != j);
                        }
                        assert forall|b2: u128| #[trigger] mask_kids(b, u, g, ts, j as int).contains(b2) implies mask_kids(b, u, g, ts, j + 1).contains(b2) by {
                            let (j2, m) = choose|j2: int, m: u128| 0 <= j2 < j && frontier_at(b, u, g, j2)
                                && #[trigger] fitting_masks(u[j2], u, ts).contains(m) && b & m == 0 && b2 == b | m;
                        }
                    }
                }
            }
            j = j + 1;
        }
        proof {
            lemma_mask_kids(b, u, g, ts);
        }
    }
}

/// The regions of `v` whose bits include those of `gc`.
fn supersets(v: &Vec<CompactRegion>, gc: CompactRegion) -> (res: Vec<CompactRegion>)
    requires
        is_key_set(v@),
    ensures
        is_key_set(res@),
        key_set(res@) == key_set(v@).filter(|b: u128| bits(gc@).subset_of(bits(b))),
{
    let mut res: Vec<CompactRegion> = Vec::new();
    let mut i: usize = 0;
    while i < v.len()
        invariant
            i <= v@.len(),
            is_key_set(res@),
            key_set(res@) == views(v@).subrange(0, i as int).to_set().filter(|b: u128| bits(gc@).subset_of(bits(b))),
        decreases v@.len() - i,
    {
        let c = v[i];
        proof {
            assert(views(v@).subrange(0, i + 1) == views(v@).subrange(0, i as int).push(c@));
            views(v@).subrange(0, i as int).lemma_push_to_set_commute(c@);
        }
        if c.is_superset_of(gc) {
            insert_key(&mut res, c);
        }
        proof {
            assert(key_set(res@) =~= views(v@).subrange(0, i + 1).to_set().filter(|b: u128| bits(gc@).subset_of(bits(b))));
        }
        i = i + 1;
    }
    proof {
        assert(views(v@).subrange(0, v@.len() as int) == views(v@));
    }
    res
}

impl<'g> Tiling<'g> {
    /// Enumerates the covers of `g` by tiles of size `tile_size` contained
    /// in `allowed_in_covers`, as `min_covers` does with no counterexample,
    /// working on bitsets: the neighbours of each node and the placements of
    /// tiles at each node of `g` are computed once as bitsets.
    pub fn par_min_covers(g: &Graph, allowed_in_covers: &Graph, tile_size: usize) -> (res: Option<Vec<CompactRegion>>)
        requires
            g.wf(),
            allowed_in_covers.wf(),
            cover_inputs(g@, allowed_in_covers@, tile_size as nat),
        ensures
            res matches Some(v) && is_key_set(v@) && key_set(v@) == potential_covers(allowed_in_covers@, g@, tile_size as nat),
    {
        let allowed = allowed_in_covers;
        let k = tile_size;
        let ghost u = allowed@;
        let tiles = regions(k);
        let ghost ts = views(tiles@).to_set();
        proof {
            lemma_spec_regions(k as nat);
            assert(ts =~= spec_regions(k as nat));
            assert(tiles_ok(tiles@, k as nat)) by {
                assert forall|j: int| 0 <= j < tiles@.len() implies {
                    &&& strictly_sorted_nodes(#[trigger] tiles@[j]@)
                    &&& tiles@[j]@.len() == k
                    &&& bounded(tiles@[j]@, k as nat)
                } by {
                    assert(views(tiles@)[j] == tiles@[j]@);
                    assert(key_set(tiles@).contains(tiles@[j]@));
                }
            }
        }
        let cm = CoverMasks::new(g, allowed, &tiles, k);
        let mut visited: Vec<CompactRegion> = Vec::new();
        let mut level: Vec<CompactRegion> = Vec::new();
        let start = CompactRegion::empty();
        level.push(start);
        let mut depth: usize = 0;
        proof {
            assert(views(level@) =~= seq![0u128]);
            assert(key_set(level@) =~= cover_level(u, g@, ts, 0)) by {
                assert(views(level@)[0] == 0u128);
            }
            assert(key_set(visited@) =~= cover_levels_below(u, g@, ts, 0));
            assert(cover_level_ok(0u128, u, 0, k as nat)) by {
                lemma_decode_in_universe(0u128, u);
                crate::compact::lemma_bits_empty(0u128);
                assert forall|i: int| 0 <= i < 128 && #[trigger] has_bit(0u128, i) implies i < u.len() by {
                    assert(bits(0u128).contains(i));
                }
                if decode(0u128, u).len() > 0 {
                    assert(decode(0u128, u).contains(decode(0u128, u)[0]));
                    let i = choose|i: int| 0 <= i < u.len() && has_bit(0u128, i) && u[i] == decode(0u128, u)[0];
                    assert(bits(0u128).contains(i));
                }
            }
        }
        while level.len() > 0
            invariant
                g.wf(),
                allowed.wf(),
                u == allowed@,
                cover_inputs(g@, u, k as nat),
                tiles_ok(tiles@, k as nat),
                ts == views(tiles@).to_set(),
                ts == spec_regions(k as nat),
                cm.wf(u, g@, ts),
                is_key_set(level@),
                is_key_set(visited@),
                key_set(level@) == cover_level(u, g@, ts, depth as nat),
                forall|b: u128| #[trigger] key_set(level@).contains(b) ==> cover_level_ok(b, u, depth as nat, k as nat),
                key_set(visited@) == cover_levels_below(u, g@, ts, depth as nat),
                depth <= u.len() + 1,
            decreases u.len() + 1 - depth,
        {
            proof {
                let b0 = level@[0]@;
                assert(views(level@)[0] == b0);
                assert(key_set(level@).contains(b0));
                lemma_decode_in_universe(b0, u);
                crate::covers::lemma_count_bits_le(b0, u.len());
                assert(depth <= depth * k) by (nonlinear_arith)
                    requires
                        k >= 1,
                ;
            }
            let mut next: Vec<CompactRegion> = Vec::new();
            let ghost lv = views(level@);
            let ghost vis0 = key_set(visited@);
            let mut a: usize = 0;
            proof {
                assert(key_set(next@) =~= Set::new(|b2: u128| exists|i: int| 0 <= i < 0 && #[trigger] cover_children(lv[i], u, g@, ts).contains(b2)));
            }
            while a < level.len()
                invariant
                    a <= level@.len(),
                    lv == views(level@),
                    g.wf(),
                    u == allowed@,
                    cover_inputs(g@, u, k as nat),
                    cm.wf(u, g@, ts),
                    key_set(level@) == cover_level(u, g@, ts, depth as nat),
                    forall|b: u128| #[trigger] key_set(level@).contains(b) ==> cover_level_ok(b, u, depth as nat, k as nat),
                    is_key_set(visited@),
                    is_key_set(next@),
                    key_set(visited@) == vis0 + lv.subrange(0, a as int).to_set(),
                    key_set(next@) == Set::new(|b2: u128| exists|i: int| 0 <= i < a && #[trigger] cover_children(lv[i], u, g@, ts).contains(b2)),
                decreases level@.len() - a,
            {
                let c = level[a];
                proof {
                    assert(lv[a as int] == c@);
                    assert(key_set(level@).contains(c@));
                    assert(cover_level_ok(c@, u, depth as nat, k as nat));
                }
                let ghost old_next = key_set(next@);
                insert_key(&mut visited, c);
                cm.add_children(c.bits(), Ghost(u), Ghost(g@), Ghost(ts), &mut next);
                proof {
                    assert(lv.subrange(0, a + 1) == lv.subrange(0, a as int).push(c@));
                    lv.subrange(0, a as int).lemma_push_to_set_commute(c@);
                    assert(key_set(next@) =~= Set::new(|b2: u128| exists|i: int| 0 <= i < a + 1 && #[trigger] cover_children(lv[i], u, g@, ts).contains(b2))) by {
                        assert forall|b2: u128| #[trigger] key_set(next@).contains(b2) == (exists|i: int| 0 <= i < a + 1 && #[trigger] cover_children(lv[i], u, g@, ts).contains(b2)) by {
                            if key_set(next@).contains(b2) && !old_next.contains(b2) {
                                assert(cover_children(lv[a as int], u, g@, ts).contains(b2));
                            }
                            if exists|i: int| 0 <= i < a + 1 && #[trigger] cover_children(lv[i], u, g@, ts).contains(b2) {
                                let i = choose|i: int| 0 <= i < a + 1 && #[trigger] cover_children(lv[i], u, g@, ts).contains(b2);
                                if i < a {
                                    assert(old_next.contains(b2));
                                }
                            }
                        }
                    }
                }
                a = a + 1;
            }
            proof {
                assert(lv.subrange(0, lv.len() as int) == lv);
                assert(key_set(next@) =~= cover_level(u, g@, ts, (depth + 1) as nat)) by {
                    assert forall|b2: u128| #[trigger] key_set(next@).contains(b2) == cover_level(u, g@, ts, (depth + 1) as nat).contains(b2) by {
                        if key_set(next@).contains(b2) {
                            let i = choose|i: int| 0 <= i < lv.len() && #[trigger] cover_children(lv[i], u, g@, ts).contains(b2);
                            assert(key_set(level@).contains(lv[i]));
                            assert(cover_step(lv[i], b2, u, g@, ts));
                        }
                        if cover_level(u, g@, ts, (depth + 1) as nat).contains(b2) {
                            let b = choose|b: u128| cover_level(u, g@, ts, depth as nat).contains(b) && #[trigger] cover_step(b, b2, u, g@, ts);
                            let i = choose|i: int| 0 <= i < lv.len() && lv[i] == b;
                            assert(cover_children(lv[i], u, g@, ts).contains(b2));
                        }
                    }
                }
                assert forall|b2: u128| #[trigger] key_set(next@).contains(b2) implies cover_level_ok(b2, u, (depth + 1) as nat, k as nat) by {
                    let b = choose|b: u128| cover_level(u, g@, ts, depth as nat).contains(b) && #[trigger] cover_step(b, b2, u, g@, ts);
                    assert forall|t: Seq<Node>| #[trigger] ts.contains(t) implies strictly_sorted_nodes(t) && t.len() == k by {
                        lemma_spec_regions(k as nat);
                    }
                    lemma_child_ok(b, b2, u, g@, ts, depth as nat, k as nat);
                }
                assert(key_set(visited@) =~= cover_levels_below(u, g@, ts, (depth + 1) as nat)) by {
                    assert forall|b: u128| #[trigger] key_set(visited@).contains(b) == cover_levels_below(u, g@, ts, (depth + 1) as nat).contains(b) by {
                        if cover_levels_below(u, g@, ts, (depth + 1) as nat).contains(b) {
                            let e = choose|e: nat| e < depth + 1 && #[trigger] cover_level(u, g@, ts, e).contains(b);
                            if e < depth {
                                assert(cover_levels_below(u, g@, ts, depth as nat).contains(b));
                            }
                        }
                        if key_set(visited@).contains(b) && !vis0.contains(b) {
                            assert(cover_level(u, g@, ts, depth as nat).contains(b));
                        }
                    }
                }
            }
            level = next;
            depth = depth + 1;
        }
        proof {
            assert(cover_level(u, g@, ts, depth as nat) =~= Set::<u128>::empty()) by {
                assert(views(level@).len() == 0);
            }
            assert(cover_reach(u, g@, ts) =~= key_set(visited@)) by {
                assert forall|b: u128| #[trigger] cover_reach(u, g@, ts).contains(b) implies key_set(visited@).contains(b) by {
                    let e = choose|e: nat| #[trigger] cover_level(u, g@, ts, e).contains(b);
                    if e >= depth {
                        lemma_cover_levels_empty(u, g@, ts, depth as nat, e);
                    }
                    assert(cover_levels_below(u, g@, ts, depth as nat).contains(b));
                }
                assert forall|b: u128| #[trigger] key_set(visited@).contains(b) implies cover_reach(u, g@, ts).contains(b) by {
                    let e = choose|e: nat| e < depth && #[trigger] cover_level(u, g@, ts, e).contains(b);
                }
            }
        }
        let gr = Region::from_sorted(crate::sorting::copy_nodes(g.nodes()));
        proof {
            g.lemma_wf();
        }
        let gc = CompactRegion::from(&gr, allowed);
        let covers = supersets(&visited, gc);
        proof {
            lemma_strict_no_duplicates(u);
            assert forall|b: u128| #[trigger] key_set(visited@).contains(b) implies bits(gc@).subset_of(bits(b)) == covers_graph(b, u, g@) by {
                lemma_decode_in_universe(b, u);
                if bits(gc@).subset_of(bits(b)) {
                    assert forall|i: int| 0 <= i < g@.len() implies decode(b, u).contains(#[trigger] g@[i]) by {
                        assert(u.contains(g@[i]));
                        let j = choose|j: int| 0 <= j < u.len() && u[j] == g@[i];
                        assert(gr@.contains(g@[i]));
                        assert(has_bit(gc@, j));
                        assert(bits(gc@).contains(j));
                    }
                }
                if covers_graph(b, u, g@) {
                    assert forall|j: int| #[trigger] bits(gc@).contains(j) implies bits(b).contains(j) by {
                        assert(has_bit(gc@, j));
                        assert(gr@.contains(u[j]));
                        let i = choose|i: int| 0 <= i < g@.len() && g@[i] == u[j];
                        assert(decode(b, u).contains(g@[i]));
                        let j2 = choose|j2: int| 0 <= j2 < u.len() && has_bit(b, j2) && u[j2] == g@[i];
                        assert(j2 == j);
                    }
                }
            }
            assert(key_set(covers@) =~= potential_covers(u, g@, k as nat));
        }
        Some(covers)
    }
}

} // verus!
