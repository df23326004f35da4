//! Minimal covers of a graph by tiles that lie in an allowed extension.

use vstd::prelude::*;
use crate::node::{Node, neighbors, spec_neighbors, node_in_bounds, spec_sub, sub_fits, node_sub, add_fits, spec_add};
use crate::region::{Region, neighbor_set};
use crate::lattice::Graph;
use crate::tiling::Tiling;
use crate::compact::{CompactRegion, has_bit, decode, encodes, count_bits, lemma_bit_witness, lemma_bits_empty, lemma_decode_in_universe};
use crate::polyhex::{spec_regions, regions, bounded, lemma_spec_regions, near};
use crate::recomb::{shift, shift_seq, shift_fits};
use crate::ordset::{TotalKey, KeyOrder, is_key_set, key_set, views, insert_key, contains_key};
use crate::sorting::{strictly_sorted_nodes, lemma_strict_implies_sorted};

verus! {

/// Bit `i` of `b` is set exactly when `s` holds the node `u[i]`, for the
/// first 128 positions.
pub open spec fn encodes_set(b: u128, s: Set<Node>, u: Seq<Node>) -> bool {
    forall|i: int| 0 <= i < 128 ==> #[trigger] has_bit(b, i) == (i < u.len() && s.contains(u[i]))
}

/// Two bitsets with the same bits are equal.
pub proof fn lemma_bits_equal(a: u128, b: u128)
    requires
        forall|i: int| 0 <= i < 128 ==> #[trigger] has_bit(a, i) == has_bit(b, i),
    ensures
        a == b,
{
    if a != b {
        let x = a ^ b;
        assert(x != 0) by (bit_vector)
            requires
                x == a ^ b,
                a != b,
        ;
        lemma_bit_witness(x);
        let i = choose|i: int| 0 <= i < 128 && #[trigger] has_bit(x, i);
        lemma_xor_bit(a, b, i as u128);
        assert(has_bit(a, i) == has_bit(b, i));
    }
}

proof fn lemma_xor_bit(a: u128, b: u128, j: u128)
    by (bit_vector)
    requires
        j < 128,
    ensures
        ((a ^ b) >> j) & 1u128 == 1u128 <==> ((a >> j) & 1u128 == 1u128) != ((b >> j) & 1u128 == 1u128),
{
}

/// The nodes at which tiles are placed next in a region `b` of the universe
/// `u`: the smallest node of `g` for the empty region, else the neighbours
/// of the region that are nodes of `g`.
pub open spec fn cover_frontier(b: u128, u: Seq<Node>, g: Seq<Node>) -> Set<Node> {
    if b == 0 {
        set![g[0]]
    } else {
        Set::new(|m: Node| neighbor_set(decode(b, u)).contains(m) && g.contains(m))
    }
}

/// The tile `tile` translated so that its node `nt` lands on `n`.
pub open spec fn placement(n: Node, tile: Seq<Node>, nt: Node) -> Seq<Node> {
    shift_seq(spec_sub(n, nt), tile)
}

/// The placement misses the region `b` and lies in the universe.
pub open spec fn placement_fits(b: u128, u: Seq<Node>, s: Seq<Node>) -> bool {
    forall|i: int| 0 <= i < s.len() ==> !decode(b, u).contains(#[trigger] s[i]) && u.contains(s[i])
}

/// `b2` is the region `b` grown by a tile of `tiles` placed at `n`.
pub open spec fn placed_at(b: u128, b2: u128, n: Node, u: Seq<Node>, tiles: Set<Seq<Node>>) -> bool {
    exists|tile: Seq<Node>, nt: Node| tiles.contains(tile) && tile.contains(nt)
        && placement_fits(b, u, #[trigger] placement(n, tile, nt))
        && encodes_set(b2, decode(b, u).to_set() + placement(n, tile, nt).to_set(), u)
}

/// `b2` is the region `b` grown by a tile at a node of its frontier.
pub open spec fn cover_step(b: u128, b2: u128, u: Seq<Node>, g: Seq<Node>, tiles: Set<Seq<Node>>) -> bool {
    exists|n: Node| #[trigger] cover_frontier(b, u, g).contains(n) && placed_at(b, b2, n, u, tiles)
}

/// The regions reached from the empty region in `d` steps.
pub open spec fn cover_level(u: Seq<Node>, g: Seq<Node>, tiles: Set<Seq<Node>>, d: nat) -> Set<u128>
    decreases d,
{
    if d == 0 {
        set![0u128]
    } else {
        Set::new(|b2: u128| exists|b: u128| cover_level(u, g, tiles, (d - 1) as nat).contains(b) && #[trigger] cover_step(b, b2, u, g, tiles))
    }
}

/// All regions reached from the empty region by growing tile by tile.
pub open spec fn cover_reach(u: Seq<Node>, g: Seq<Node>, tiles: Set<Seq<Node>>) -> Set<u128> {
    Set::new(|b: u128| exists|d: nat| #[trigger] cover_level(u, g, tiles, d).contains(b))
}

/// The region `b` holds every node of `g`.
pub open spec fn covers_graph(b: u128, u: Seq<Node>, g: Seq<Node>) -> bool {
    forall|i: int| 0 <= i < g.len() ==> decode(b, u).contains(#[trigger] g[i])
}

/// The region `b` is one of the known counterexamples and covers `g`.
pub open spec fn refuted(b: u128, u: Seq<Node>, g: Seq<Node>, cexs: Set<Seq<Node>>) -> bool {
    &&& decode(b, u).len() >= g.len()
    &&& cexs.contains(decode(b, u))
    &&& covers_graph(b, u, g)
}

/// The minimal covers of `g` by tiles of size `k` within `u`: the regions
/// reached by growing tile by tile from the empty region, always at the
/// frontier within `g`, that hold all of `g`; `None` when one of them is a
/// known counterexample.
pub open spec fn spec_min_covers(u: Seq<Node>, g: Seq<Node>, k: nat, cexs: Set<Seq<Node>>) -> Option<Set<u128>> {
    let reach = cover_reach(u, g, spec_regions(k));
    if exists|b: u128| #[trigger] reach.contains(b) && refuted(b, u, g, cexs) {
        None
    } else {
        Some(Set::new(|b: u128| reach.contains(b) && covers_graph(b, u, g)))
    }
}

/// The covers of `g` by tiles of size `k` within `u`, with no
/// counterexample to refute one.
pub open spec fn potential_covers(u: Seq<Node>, g: Seq<Node>, k: nat) -> Set<u128> {
    Set::new(|b: u128| cover_reach(u, g, spec_regions(k)).contains(b) && covers_graph(b, u, g))
}

/// With no counterexamples, the minimal covers are the potential covers.
pub proof fn lemma_no_counterexamples(u: Seq<Node>, g: Seq<Node>, k: nat)
    ensures
        spec_min_covers(u, g, k, Set::empty()) == Some(potential_covers(u, g, k)),
{
    assert(!exists|b: u128| #[trigger] cover_reach(u, g, spec_regions(k)).contains(b) && refuted(b, u, g, Set::empty()));
}

/// Counterexamples can only turn the minimal covers into nothing: with any
/// counterexamples they are either absent or the covers found with none.
pub proof fn lemma_counterexamples_only_refute(u: Seq<Node>, g: Seq<Node>, k: nat, cexs: Set<Seq<Node>>)
    ensures
        spec_min_covers(u, g, k, cexs) is None
            || spec_min_covers(u, g, k, cexs) == spec_min_covers(u, g, k, Set::empty()),
{
    lemma_no_counterexamples(u, g, k);
    if spec_min_covers(u, g, k, cexs) is Some {
        assert(spec_min_covers(u, g, k, cexs)->0 =~= potential_covers(u, g, k));
    }
}

/// The placements of tiles at `n` that grow the region `b`, before the pair
/// `(ti, tj)` of a tile and one of its nodes.
pub open spec fn placed_upto(b: u128, n: Node, u: Seq<Node>, tiles: Seq<Seq<Node>>, ti: int, tj: int) -> Set<u128> {
    Set::new(|b2: u128| exists|a: int, c: int| 0 <= a < tiles.len() && 0 <= c < tiles[a].len() && (a < ti || (a == ti && c < tj))
        && placement_fits(b, u, #[trigger] placement(n, tiles[a], tiles[a][c]))
        && encodes_set(b2, decode(b, u).to_set() + placement(n, tiles[a], tiles[a][c]).to_set(), u))
}

impl TotalKey for u128 {
    fn copy_key(&self) -> (r: Self) {
        *self
    }

    open spec fn key_lt(a: u128, b: u128) -> bool {
        a < b
    }

    proof fn lemma_key_order(a: u128, b: u128, c: u128) {
    }

    fn order_with(&self, other: &Self) -> (r: KeyOrder) {
        if *self < *other {
            KeyOrder::Less
        } else if *self == *other {
            KeyOrder::Equal
        } else {
            KeyOrder::Greater
        }
    }
}

/// The shared requirements on a set of tiles of size `k`.
pub open spec fn tiles_ok(tiles: Seq<Region>, k: nat) -> bool {
    &&& forall|j: int| 0 <= j < tiles.len() ==> (#[trigger] tiles[j]).wf()
    &&& forall|j: int| 0 <= j < tiles.len() ==> {
        &&& strictly_sorted_nodes(#[trigger] tiles[j]@)
        &&& tiles[j]@.len() == k
        &&& bounded(tiles[j]@, k)
    }
}

/// A node with room for tiles of size `k` around it.
pub open spec fn has_room(n: Node, k: nat) -> bool {
    -129 + k <= n.0 <= 128 - k && -132 + 4 * k <= n.1 <= 131 - 4 * k
}

/// Adds to `next` every region that grows `c` by a tile placed at `n`.
fn add_placements(region: &Region, c: CompactRegion, n: Node, tiles: &Vec<Region>, k: usize, allowed: &Graph, next: &mut Vec<CompactRegion>)
    requires
        1 <= k <= 20,
        region.wf(),
        region@ == decode(c@, allowed@),
        allowed.wf(),
        allowed@.len() <= 128,
        strictly_sorted_nodes(allowed@),
        tiles_ok(tiles@, k as nat),
        has_room(n, k as nat),
        is_key_set(old(next)@),
    ensures
        is_key_set(final(next)@),
        key_set(final(next)@) == key_set(old(next)@) + placed_upto(c@, n, allowed@, views(tiles@), tiles@.len() as int, 0),
{
    let ghost u = allowed@;
    let ghost tv = views(tiles@);
    let ghost b = c@;
    proof {
        assert(placed_upto(b, n, u, tv, 0, 0) =~= Set::<u128>::empty());
        assert(key_set(next@) =~= key_set(old(next)@) + placed_upto(b, n, u, tv, 0, 0));
    }
    let mut ti: usize = 0;
    while ti < tiles.len()
        invariant
            1 <= k <= 20,
            ti <= tiles@.len(),
            u == allowed@,
            tv == views(tiles@),
            b == c@,
            region.wf(),
            region@ == decode(b, u),
            allowed.wf(),
            u.len() <= 128,
            strictly_sorted_nodes(u),
            tiles_ok(tiles@, k as nat),
            has_room(n, k as nat),
            is_key_set(next@),
            key_set(next@) == key_set(old(next)@) + placed_upto(b, n, u, tv, ti as int, 0),
        decreases tiles@.len() - ti,
    {
        let tile = &tiles[ti];
        let tnodes = tile.nodes();
        proof {
            assert(tv[ti as int] == tile@);
        }
        let mut tj: usize = 0;
        while tj < tnodes.len()
            invariant
                1 <= k <= 20,
                ti < tiles@.len(),
                tj <= tnodes@.len(),
                tnodes@ == tile@,
                tile == &tiles@[ti as int],
                u == allowed@,
                tv == views(tiles@),
                tv[ti as int] == tile@,
                b == c@,
                region.wf(),
                region@ == decode(b, u),
                allowed.wf(),
                u.len() <= 128,
                strictly_sorted_nodes(u),
                tiles_ok(tiles@, k as nat),
                has_room(n, k as nat),
                is_key_set(next@),
                key_set(next@) == key_set(old(next)@) + placed_upto(b, n, u, tv, ti as int, tj as int),
            decreases tnodes@.len() - tj,
        {
            let nt = tnodes[tj];
            proof {
                assert(tile.wf());
                assert(bounded(tile@, k as nat));
                assert(0 <= nt.0 < k && -2 * k + 2 <= nt.1 <= 2 * k - 2);
            }
            let offset = node_sub(n, nt);
            proof {
                assert forall|i: int| 0 <= i < tile@.len() implies add_fits(#[trigger] tile@[i], offset) by {
                    assert(0 <= tile@[i].0 < k && -2 * k + 2 <= tile@[i].1 <= 2 * k - 2);
                }
            }
            let shifted = shift(offset, tile);
            let ghost pl = placement(n, tv[ti as int], tv[ti as int][tj as int]);
            proof {
                assert(shifted@ == pl);
            }
            let snodes = shifted.nodes();
            let mut ok: bool = true;
            let mut q: usize = 0;
            while q < snodes.len()
                invariant
                    q <= snodes@.len(),
                    snodes@ == shifted@,
                    region@ == decode(b, u),
                    allowed.wf(),
                    u == allowed@,
                    ok == forall|i: int| 0 <= i < q ==> !decode(b, u).contains(#[trigger] snodes@[i]) && u.contains(snodes@[i]),
                decreases snodes@.len() - q,
            {
                if region.contains(&snodes[q]) || !allowed.contains(&snodes[q]) {
                    ok = false;
                }
                q = q + 1;
            }
            let ghost before = key_set(next@);
            if ok {
                let combined = region.bitor(&shifted);
                let compact = CompactRegion::from(&combined, allowed);
                proof {
                    assert(encodes_set(compact@, decode(b, u).to_set() + pl.to_set(), u)) by {
                        assert forall|i: int| 0 <= i < 128 implies #[trigger] has_bit(compact@, i) == (i < u.len() && (decode(b, u).to_set() + pl.to_set()).contains(u[i])) by {
                            if i < u.len() {
                                assert(combined@.contains(u[i]) == combined@.to_set().contains(u[i]));
                            }
                        }
                    }
                }
                let ghost cv = compact@;
                insert_key(next, compact);
                proof {
                    assert(placed_upto(b, n, u, tv, ti as int, tj + 1) =~= placed_upto(b, n, u, tv, ti as int, tj as int).insert(cv)) by {
                        assert forall|x: u128| #[trigger] placed_upto(b, n, u, tv, ti as int, tj + 1).contains(x)
                            implies placed_upto(b, n, u, tv, ti as int, tj as int).insert(cv).contains(x) by {
                            let (a2, c2) = choose|a2: int, c2: int| 0 <= a2 < tv.len() && 0 <= c2 < tv[a2].len() && (a2 < ti || (a2 == ti && c2 < tj + 1))
                                && placement_fits(b, u, #[trigger] placement(n, tv[a2], tv[a2][c2]))
                                && encodes_set(x, decode(b, u).to_set() + placement(n, tv[a2], tv[a2][c2]).to_set(), u);
                            if a2 == ti && c2 == tj {
                                lemma_bits_equal(x, cv);
                            }
                        }
                        assert forall|x: u128| placed_upto(b, n, u, tv, ti as int, tj as int).insert(cv).contains(x)
                            implies #[trigger] placed_upto(b, n, u, tv, ti as int, tj + 1).contains(x) by {
                            if x == cv {
                                assert(placement_fits(b, u, placement(n, tv[ti as int], tv[ti as int][tj as int])));
                            } else {
                                let (a2, c2) = choose|a2: int, c2: int| 0 <= a2 < tv.len() && 0 <= c2 < tv[a2].len() && (a2 < ti || (a2 == ti && c2 < tj))
                                    && placement_fits(b, u, #[trigger] placement(n, tv[a2], tv[a2][c2]))
                                    && encodes_set(x, decode(b, u).to_set() + placement(n, tv[a2], tv[a2][c2]).to_set(), u);
                            }
                        }
                    }
                }
            } else {
                proof {
                    assert(placed_upto(b, n, u, tv, ti as int, tj + 1) =~= placed_upto(b, n, u, tv, ti as int, tj as int)) by {
                        assert forall|x: u128| #[trigger] placed_upto(b, n, u, tv, ti as int, tj + 1).contains(x)
                            implies placed_upto(b, n, u, tv, ti as int, tj as int).contains(x) by {
                            let (a2, c2) = choose|a2: int, c2: int| 0 <= a2 < tv.len() && 0 <= c2 < tv[a2].len() && (a2 < ti || (a2 == ti && c2 < tj + 1))
                                && placement_fits(b, u, #[trigger] placement(n, tv[a2], tv[a2][c2]))
                                && encodes_set(x, decode(b, u).to_set() + placement(n, tv[a2], tv[a2][c2]).to_set(), u);
                            if a2 == ti && c2 == tj {
                                assert(false);
                            }
                        }
                        assert forall|x: u128| #[trigger] placed_upto(b, n, u, tv, ti as int, tj as int).contains(x)
                            implies placed_upto(b, n, u, tv, ti as int, tj + 1).contains(x) by {
                            let (a2, c2) = choose|a2: int, c2: int| 0 <= a2 < tv.len() && 0 <= c2 < tv[a2].len() && (a2 < ti || (a2 == ti && c2 < tj))
                                && placement_fits(b, u, #[trigger] placement(n, tv[a2], tv[a2][c2]))
                                && encodes_set(x, decode(b, u).to_set() + placement(n, tv[a2], tv[a2][c2]).to_set(), u);
                        }
                    }
                }
            }
            tj = tj + 1;
        }
        proof {
            assert(placed_upto(b, n, u, tv, ti as int, tnodes@.len() as int) =~= placed_upto(b, n, u, tv, ti + 1, 0)) by {
                assert forall|x: u128| #[trigger] placed_upto(b, n, u, tv, ti as int, tnodes@.len() as int).contains(x)
                    == placed_upto(b, n, u, tv, ti + 1, 0).contains(x) by {
                    if placed_upto(b, n, u, tv, ti as int, tnodes@.len() as int).contains(x) {
                        let (a2, c2) = choose|a2: int, c2: int| 0 <= a2 < tv.len() && 0 <= c2 < tv[a2].len() && (a2 < ti || (a2 == ti && c2 < tnodes@.len()))
                            && placement_fits(b, u, #[trigger] placement(n, tv[a2], tv[a2][c2]))
                            && encodes_set(x, decode(b, u).to_set() + placement(n, tv[a2], tv[a2][c2]).to_set(), u);
                        assert(placed_upto(b, n, u, tv, ti + 1, 0).contains(x));
                    }
                    if placed_upto(b, n, u, tv, ti + 1, 0).contains(x) {
                        let (a2, c2) = choose|a2: int, c2: int| 0 <= a2 < tv.len() && 0 <= c2 < tv[a2].len() && (a2 < ti + 1 || (a2 == ti + 1 && c2 < 0))
                            && placement_fits(b, u, #[trigger] placement(n, tv[a2], tv[a2][c2]))
                            && encodes_set(x, decode(b, u).to_set() + placement(n, tv[a2], tv[a2][c2]).to_set(), u);
                        assert(placed_upto(b, n, u, tv, ti as int, tnodes@.len() as int).contains(x));
                    }
                }
            }
        }
        ti = ti + 1;
    }
}

/// All placements at `n` from the full list of tiles are those from the set
/// of tiles.
proof fn lemma_placed_full(b: u128, n: Node, u: Seq<Node>, tv: Seq<Seq<Node>>)
    ensures
        placed_upto(b, n, u, tv, tv.len() as int, 0) == Set::new(|b2: u128| placed_at(b, b2, n, u, tv.to_set())),
{
    assert(placed_upto(b, n, u, tv, tv.len() as int, 0) =~= Set::new(|b2: u128| placed_at(b, b2, n, u, tv.to_set()))) by {
        assert forall|x: u128| #[trigger] placed_upto(b, n, u, tv, tv.len() as int, 0).contains(x) == placed_at(b, x, n, u, tv.to_set()) by {
            if placed_upto(b, n, u, tv, tv.len() as int, 0).contains(x) {
                let (a2, c2) = choose|a2: int, c2: int| 0 <= a2 < tv.len() && 0 <= c2 < tv[a2].len() && (a2 < tv.len() || (a2 == tv.len() && c2 < 0))
                    && placement_fits(b, u, #[trigger] placement(n, tv[a2], tv[a2][c2]))
                    && encodes_set(x, decode(b, u).to_set() + placement(n, tv[a2], tv[a2][c2]).to_set(), u);
                assert(tv.to_set().contains(tv[a2]));
                assert(tv[a2].contains(tv[a2][c2]));
            }
            if placed_at(b, x, n, u, tv.to_set()) {
                let (tile, nt) = choose|tile: Seq<Node>, nt: Node| tv.to_set().contains(tile) && tile.contains(nt)
                    && placement_fits(b, u, #[trigger] placement(n, tile, nt))
                    && encodes_set(x, decode(b, u).to_set() + placement(n, tile, nt).to_set(), u);
                let a2 = choose|a2: int| 0 <= a2 < tv.len() && tv[a2] == tile;
                let c2 = choose|c2: int| 0 <= c2 < tile.len() && tile[c2] == nt;
                assert(placement_fits(b, u, placement(n, tv[a2], tv[a2][c2])));
            }
        }
    }
}

/// The regions that grow `b` by a tile at a frontier node that is the
/// neighbour `j` of cell `ci` or an earlier pair.
pub open spec fn children_upto(b: u128, u: Seq<Node>, g: Seq<Node>, tiles: Set<Seq<Node>>, ci: int, j: int) -> Set<u128> {
    Set::new(|b2: u128| exists|m: Node| #[trigger] near(decode(b, u), m, ci, j) && g.contains(m) && placed_at(b, b2, m, u, tiles))
}

/// The regions that grow `b` by one tile at its frontier.
pub open spec fn cover_children(b: u128, u: Seq<Node>, g: Seq<Node>, tiles: Set<Seq<Node>>) -> Set<u128> {
    Set::new(|b2: u128| cover_step(b, b2, u, g, tiles))
}

/// The requirements shared by the cover searches.
pub open spec fn cover_inputs(g: Seq<Node>, u: Seq<Node>, k: nat) -> bool {
    &&& strictly_sorted_nodes(g)
    &&& strictly_sorted_nodes(u)
    &&& 0 < g.len()
    &&& u.len() <= 128
    &&& forall|i: int| 0 <= i < g.len() ==> u.contains(#[trigger] g[i])
    &&& forall|i: int| 0 <= i < g.len() ==> has_room(#[trigger] g[i], k)
    &&& forall|i: int| 0 <= i < u.len() ==> node_in_bounds(#[trigger] u[i])
    &&& 1 <= k <= 20
}

/// Adds to `next` every region that grows `c` by one tile at its frontier.
fn add_children(region: &Region, c: CompactRegion, g: &Graph, tiles: &Vec<Region>, k: usize, allowed: &Graph, next: &mut Vec<CompactRegion>)
    requires
        region.wf(),
        region@ == decode(c@, allowed@),
        g.wf(),
        allowed.wf(),
        cover_inputs(g@, allowed@, k as nat),
        tiles_ok(tiles@, k as nat),
        is_key_set(old(next)@),
    ensures
        is_key_set(final(next)@),
        key_set(final(next)@) == key_set(old(next)@) + cover_children(c@, allowed@, g@, views(tiles@).to_set()),
{
    let ghost u = allowed@;
    let ghost tv = views(tiles@);
    let ghost ts = tv.to_set();
    let ghost b = c@;
    proof {
        g.lemma_wf();
    }
    if c.is_empty() {
        let n = g.node_at(0);
        proof {
            assert(has_room(g@[0], k as nat));
        }
        add_placements(region, c, n, tiles, k, allowed, next);
        proof {
            lemma_placed_full(b, n, u, tv);
            assert(cover_children(b, u, g@, ts) =~= placed_upto(b, n, u, tv, tv.len() as int, 0)) by {
                assert forall|x: u128| #[trigger] cover_children(b, u, g@, ts).contains(x) == placed_at(b, x, n, u, ts) by {
                    if cover_children(b, u, g@, ts).contains(x) {
                        let m = choose|m: Node| #[trigger] cover_frontier(b, u, g@).contains(m) && placed_at(b, x, m, u, ts);
                        assert(m == n);
                    }
                    if placed_at(b, x, n, u, ts) {
                        assert(cover_frontier(b, u, g@).contains(n));
                    }
                }
            }
        }
        return;
    }
    let cells = region.nodes();
    let mut ci: usize = 0;
    proof {
        assert(children_upto(b, u, g@, ts, 0, 0) =~= Set::<u128>::empty()) by {
            assert forall|x: u128| !#[trigger] children_upto(b, u, g@, ts, 0, 0).contains(x) by {
                if children_upto(b, u, g@, ts, 0, 0).contains(x) {
                    let m = choose|m: Node| #[trigger] near(decode(b, u), m, 0, 0) && g@.contains(m) && placed_at(b, x, m, u, ts);
                    let (i, kk) = choose|i: int, kk: int| 0 <= i < decode(b, u).len() && 0 <= kk < 6 && (i < 0 || (i == 0 && kk < 0)) && #[trigger] spec_neighbors(decode(b, u)[i])[kk] == m;
                }
            }
        }
        assert(key_set(next@) =~= key_set(old(next)@) + children_upto(b, u, g@, ts, 0, 0));
    }
    while ci < cells.len()
        invariant
            ci <= cells@.len(),
            cells@ == region@,
            region.wf(),
            region@ == decode(b, u),
            b == c@,
            b != 0,
            u == allowed@,
            tv == views(tiles@),
            ts == tv.to_set(),
            g.wf(),
            allowed.wf(),
            cover_inputs(g@, u, k as nat),
            tiles_ok(tiles@, k as nat),
            is_key_set(next@),
            key_set(next@) == key_set(old(next)@) + children_upto(b, u, g@, ts, ci as int, 0),
        decreases cells@.len() - ci,
    {
        proof {
            crate::compact::lemma_decode_in_universe(b, u);
            assert(u.contains(cells@[ci as int]));
            let l = choose|l: int| 0 <= l < u.len() && u[l] == cells@[ci as int];
            assert(node_in_bounds(u[l]));
        }
        let ns = neighbors(&cells[ci]);
        let mut j: usize = 0;
        while j < 6
            invariant
                ci < cells@.len(),
                j <= 6,
                cells@ == region@,
                ns@ == spec_neighbors(region@[ci as int]),
                region.wf(),
                region@ == decode(b, u),
                b == c@,
                b != 0,
                u == allowed@,
                tv == views(tiles@),
                ts == tv.to_set(),
                g.wf(),
                allowed.wf(),
                cover_inputs(g@, u, k as nat),
                tiles_ok(tiles@, k as nat),
                is_key_set(next@),
                key_set(next@) == key_set(old(next)@) + children_upto(b, u, g@, ts, ci as int, j as int),
            decreases 6 - j,
        {
            let m = ns[j];
            let ghost before = key_set(next@);
            proof {
                assert(spec_neighbors(region@[ci as int])[j as int] == m);
                assert forall|m2: Node| near(region@, m2, ci as int, j + 1) == (near(region@, m2, ci as int, j as int) || m2 == m) by {
                    if near(region@, m2, ci as int, j + 1) && !near(region@, m2, ci as int, j as int) {
                        let (i, kk) = choose|i: int, kk: int| 0 <= i < region@.len() && 0 <= kk < 6 && (i < ci || (i == ci && kk < j + 1)) && #[trigger] spec_neighbors(region@[i])[kk] == m2;
                        assert(i == ci && kk == j);
                    }
                    if near(region@, m2, ci as int, j as int) {
                        let (i, kk) = choose|i: int, kk: int| 0 <= i < region@.len() && 0 <= kk < 6 && (i < ci || (i == ci && kk < j)) && #[trigger] spec_neighbors(region@[i])[kk] == m2;
                        assert(near(region@, m2, ci as int, j + 1));
                    }
                    if m2 == m {
                        assert(near(region@, m2, ci as int, j + 1));
                    }
                }
            }
            if g.contains(&m) {
                proof {
                    g.lemma_wf();
                    assert(g@[g.index_of(m) as int] == m);
                    assert(has_room(g@[g.index_of(m) as int], k as nat));
                }
                add_placements(region, c, m, tiles, k, allowed, next);
                proof {
                    lemma_placed_full(b, m, u, tv);
                    assert(key_set(next@) =~= key_set(old(next)@) + children_upto(b, u, g@, ts, ci as int, j + 1)) by {
                        assert forall|x: u128| #[trigger] children_upto(b, u, g@, ts, ci as int, j + 1).contains(x)
                            == (children_upto(b, u, g@, ts, ci as int, j as int).contains(x) || placed_at(b, x, m, u, ts)) by {
                            if children_upto(b, u, g@, ts, ci as int, j + 1).contains(x) {
                                let m2 = choose|m2: Node| #[trigger] near(decode(b, u), m2, ci as int, j + 1) && g@.contains(m2) && placed_at(b, x, m2, u, ts);
                                if m2 != m {
                                    assert(near(decode(b, u), m2, ci as int, j as int));
                                }
                            }
                            if children_upto(b, u, g@, ts, ci as int, j as int).contains(x) {
                                let m2 = choose|m2: Node| #[trigger] near(decode(b, u), m2, ci as int, j as int) && g@.contains(m2) && placed_at(b, x, m2, u, ts);
                                assert(near(decode(b, u), m2, ci as int, j + 1));
                            }
                            if placed_at(b, x, m, u, ts) {
                                assert(near(decode(b, u), m, ci as int, j + 1));
                            }
                        }
                    }
                }
            } else {
                proof {
                    assert(children_upto(b, u, g@, ts, ci as int, j + 1) =~= children_upto(b, u, g@, ts, ci as int, j as int)) by {
                        assert forall|x: u128| #[trigger] children_upto(b, u, g@, ts, ci as int, j + 1).contains(x)
                            == children_upto(b, u, g@, ts, ci as int, j as int).contains(x) by {
                            if children_upto(b, u, g@, ts, ci as int, j + 1).contains(x) {
                                let m2 = choose|m2: Node| #[trigger] near(decode(b, u), m2, ci as int, j + 1) && g@.contains(m2) && placed_at(b, x, m2, u, ts);
                                assert(near(decode(b, u), m2, ci as int, j as int));
                            }
                            if children_upto(b, u, g@, ts, ci as int, j as int).contains(x) {
                                let m2 = choose|m2: Node| #[trigger] near(decode(b, u), m2, ci as int, j as int) && g@.contains(m2) && placed_at(b, x, m2, u, ts);
                                assert(near(decode(b, u), m2, ci as int, j + 1));
                            }
                        }
                    }
                }
            }
            j = j + 1;
        }
        proof {
            assert(children_upto(b, u, g@, ts, ci as int, 6) =~= children_upto(b, u, g@, ts, ci + 1, 0)) by {
                assert forall|x: u128| #[trigger] children_upto(b, u, g@, ts, ci as int, 6).contains(x)
                    == children_upto(b, u, g@, ts, ci + 1, 0).contains(x) by {
                    if children_upto(b, u, g@, ts, ci as int, 6).contains(x) {
                        let m2 = choose|m2: Node| #[trigger] near(decode(b, u), m2, ci as int, 6) && g@.contains(m2) && placed_at(b, x, m2, u, ts);
                        let (i, kk) = choose|i: int, kk: int| 0 <= i < region@.len() && 0 <= kk < 6 && (i < ci || (i == ci && kk < 6)) && #[trigger] spec_neighbors(region@[i])[kk] == m2;
                        assert(near(decode(b, u), m2, ci + 1, 0));
                    }
                    if children_upto(b, u, g@, ts, ci + 1, 0).contains(x) {
                        let m2 = choose|m2: Node| #[trigger] near(decode(b, u), m2, ci + 1, 0) && g@.contains(m2) && placed_at(b, x, m2, u, ts);
                        let (i, kk) = choose|i: int, kk: int| 0 <= i < region@.len() && 0 <= kk < 6 && (i < ci + 1 || (i == ci + 1 && kk < 0)) && #[trigger] spec_neighbors(region@[i])[kk] == m2;
                        assert(near(decode(b, u), m2, ci as int, 6));
                    }
                }
            }
        }
        ci = ci + 1;
    }
    proof {
        assert(children_upto(b, u, g@, ts, cells@.len() as int, 0) =~= cover_children(b, u, g@, ts)) by {
            assert forall|x: u128| #[trigger] children_upto(b, u, g@, ts, cells@.len() as int, 0).contains(x)
                == cover_children(b, u, g@, ts).contains(x) by {
                if children_upto(b, u, g@, ts, cells@.len() as int, 0).contains(x) {
                    let m2 = choose|m2: Node| #[trigger] near(decode(b, u), m2, cells@.len() as int, 0) && g@.contains(m2) && placed_at(b, x, m2, u, ts);
                    let (i, kk) = choose|i: int, kk: int| 0 <= i < region@.len() && 0 <= kk < 6 && (i < cells@.len() || (i == cells@.len() && kk < 0)) && #[trigger] spec_neighbors(region@[i])[kk] == m2;
                    assert(neighbor_set(decode(b, u)).contains(m2));
                    assert(cover_frontier(b, u, g@).contains(m2));
                }
                if cover_children(b, u, g@, ts).contains(x) {
                    let m2 = choose|m2: Node| #[trigger] cover_frontier(b, u, g@).contains(m2) && placed_at(b, x, m2, u, ts);
                    assert(neighbor_set(decode(b, u)).contains(m2));
                    let (i, kk) = choose|i: int, kk: int| 0 <= i < region@.len() && 0 <= kk < 6 && #[trigger] spec_neighbors(region@[i])[kk] == m2;
                    assert(near(decode(b, u), m2, cells@.len() as int, 0));
                }
            }
        }
    }
}

/// The regions of the levels before `d`.
pub open spec fn cover_levels_below(u: Seq<Node>, g: Seq<Node>, tiles: Set<Seq<Node>>, d: nat) -> Set<u128> {
    Set::new(|b: u128| exists|e: nat| e < d && #[trigger] cover_level(u, g, tiles, e).contains(b))
}

/// What holds of every region at depth `d`: `d` tiles of `k` nodes, all in
/// the universe.
pub open spec fn cover_level_ok(b: u128, u: Seq<Node>, d: nat, k: nat) -> bool {
    &&& decode(b, u).len() == d * k
    &&& forall|i: int| 0 <= i < 128 && #[trigger] has_bit(b, i) ==> i < u.len()
}

pub proof fn lemma_count_bits_le(b: u128, n: nat)
    ensures
        count_bits(b, n) <= n,
    decreases n,
{
    if n > 0 {
        lemma_count_bits_le(b, (n - 1) as nat);
    }
}

pub proof fn lemma_cover_levels_empty(u: Seq<Node>, g: Seq<Node>, tiles: Set<Seq<Node>>, d: nat, e: nat)
    requires
        cover_level(u, g, tiles, d) == Set::<u128>::empty(),
        d <= e,
    ensures
        cover_level(u, g, tiles, e) == Set::<u128>::empty(),
    decreases e - d,
{
    if d < e {
        lemma_cover_levels_empty(u, g, tiles, d, (e - 1) as nat);
        assert(cover_level(u, g, tiles, e) =~= Set::<u128>::empty());
    }
}

/// A child of a region at depth `d` is at depth `d + 1`.
pub proof fn lemma_child_ok(b: u128, b2: u128, u: Seq<Node>, g: Seq<Node>, tiles: Set<Seq<Node>>, d: nat, k: nat)
    requires
        strictly_sorted_nodes(u),
        u.len() <= 128,
        cover_level_ok(b, u, d, k),
        cover_step(b, b2, u, g, tiles),
        forall|t: Seq<Node>| #[trigger] tiles.contains(t) ==> strictly_sorted_nodes(t) && t.len() == k,
    ensures
        cover_level_ok(b2, u, d + 1, k),
{
    let n = choose|n: Node| #[trigger] cover_frontier(b, u, g).contains(n) && placed_at(b, b2, n, u, tiles);
    let (tile, nt) = choose|tile: Seq<Node>, nt: Node| tiles.contains(tile) && tile.contains(nt)
        && placement_fits(b, u, #[trigger] placement(n, tile, nt))
        && encodes_set(b2, decode(b, u).to_set() + placement(n, tile, nt).to_set(), u);
    let p = placement(n, tile, nt);
    let a = decode(b, u);
    let s = a.to_set() + p.to_set();
    lemma_decode_in_universe(b, u);
    lemma_decode_in_universe(b2, u);
    let a2 = decode(b2, u);
    assert forall|x: Node| #[trigger] a2.to_set().contains(x) == s.contains(x) by {
        if a2.contains(x) {
            let i = choose|i: int| 0 <= i < u.len() && has_bit(b2, i) && u[i] == x;
        }
        if s.contains(x) {
            assert(u.contains(x)) by {
                if p.contains(x) {
                    let j = choose|j: int| 0 <= j < p.len() && p[j] == x;
                } else {
                    let j = choose|j: int| 0 <= j < a.len() && a[j] == x;
                }
            }
            let i = choose|i: int| 0 <= i < u.len() && u[i] == x;
            assert(has_bit(b2, i));
        }
    }
    assert(a2.to_set() =~= s);
    lemma_strict_implies_sorted(a2);
    lemma_strict_implies_sorted(a);
    lemma_strict_implies_sorted(tile);
    a2.unique_seq_to_set();
    a.unique_seq_to_set();
    assert(p.no_duplicates()) by {
        assert forall|i: int, j: int| 0 <= i < p.len() && 0 <= j < p.len() && i != j implies p[i] != p[j] by {
            assert(tile[i] != tile[j]);
            if p[i] == p[j] {
                crate::node::lemma_add_injective(tile[i], tile[j], spec_sub(n, nt));
            }
        }
    }
    p.unique_seq_to_set();
    assert(a.to_set().disjoint(p.to_set())) by {
        assert forall|x: Node| a.to_set().contains(x) implies !p.to_set().contains(x) by {
            if p.to_set().contains(x) {
                let j = choose|j: int| 0 <= j < p.len() && p[j] == x;
            }
        }
    }
    vstd::set_lib::lemma_set_disjoint_lens(a.to_set(), p.to_set());
    assert((d + 1) * k == d * k + k) by (nonlinear_arith);
    assert forall|i: int| 0 <= i < 128 && #[trigger] has_bit(b2, i) implies i < u.len() by {}
}

/// Whether `cexs` holds a region equal to `r`.
fn holds_region(cexs: &Vec<Region>, r: &Region) -> (res: bool)
    ensures
        res == views(cexs@).to_set().contains(r@),
{
    let mut i: usize = 0;
    while i < cexs.len()
        invariant
            i <= cexs@.len(),
            forall|j: int| 0 <= j < i ==> #[trigger] cexs@[j]@ != r@,
        decreases cexs@.len() - i,
    {
        match cexs[i].order_with(r) {
            KeyOrder::Equal => {
                proof {
                    assert(views(cexs@)[i as int] == r@);
                }
                return true;
            },
            _ => {},
        }
        i = i + 1;
    }
    proof {
        if views(cexs@).to_set().contains(r@) {
            let j = choose|j: int| 0 <= j < views(cexs@).len() && views(cexs@)[j] == r@;
            assert(cexs@[j]@ == r@);
        }
    }
    false
}

/// Whether the region holds every node of `g`.
fn holds_graph(r: &Region, g: &Graph) -> (res: bool)
    ensures
        res == forall|i: int| 0 <= i < g@.len() ==> r@.contains(#[trigger] g@[i]),
{
    let nodes = g.nodes();
    let mut i: usize = 0;
    while i < nodes.len()
        invariant
            i <= nodes@.len(),
            nodes@ == g@,
            forall|j: int| 0 <= j < i ==> r@.contains(#[trigger] g@[j]),
        decreases nodes@.len() - i,
    {
        if !r.contains(&nodes[i]) {
            return false;
        }
        i = i + 1;
    }
    true
}

/// The covers among the reached regions `visited`.
fn select_covers(visited: &Vec<CompactRegion>, g: &Graph, allowed: &Graph) -> (res: Vec<CompactRegion>)
    requires
        allowed.wf(),
        allowed@.len() <= 128,
        strictly_sorted_nodes(allowed@),
    ensures
        is_key_set(res@),
        key_set(res@) == Set::new(|b: u128| key_set(visited@).contains(b) && covers_graph(b, allowed@, g@)),
{
    let mut res: Vec<CompactRegion> = Vec::new();
    let mut i: usize = 0;
    while i < visited.len()
        invariant
            i <= visited@.len(),
            allowed.wf(),
            allowed@.len() <= 128,
            strictly_sorted_nodes(allowed@),
            is_key_set(res@),
            key_set(res@) == Set::new(|b: u128| views(visited@).subrange(0, i as int).to_set().contains(b) && covers_graph(b, allowed@, g@)),
        decreases visited@.len() - i,
    {
        let c = visited[i];
        let region = c.to_region(allowed);
        let ghost before = key_set(res@);
        proof {
            assert(views(visited@).subrange(0, i + 1) == views(visited@).subrange(0, i as int).push(c@));
            views(visited@).subrange(0, i as int).lemma_push_to_set_commute(c@);
        }
        if holds_graph(&region, g) {
            insert_key(&mut res, c);
            proof {
                assert(key_set(res@) =~= Set::new(|b: u128| views(visited@).subrange(0, i + 1).to_set().contains(b) && covers_graph(b, allowed@, g@)));
            }
        } else {
            proof {
                assert(key_set(res@) =~= Set::new(|b: u128| views(visited@).subrange(0, i + 1).to_set().contains(b) && covers_graph(b, allowed@, g@)));
            }
        }
        i = i + 1;
    }
    proof {
        assert(views(visited@).subrange(0, visited@.len() as int) == views(visited@));
    }
    res
}

impl<'g> Tiling<'g> {
    /// Enumerates all minimal covers of `g` that use tiles of size `tile_size`
    /// and are contained in `allowed_in_covers`: the regions reached from the
    /// empty region by placing one tile at a time at a frontier node of `g`,
    /// that hold all of `g`.  Returns `None` when one of them is one of the known
    /// counterexamples.
    pub fn min_covers(g: &Graph, allowed_in_covers: &Graph, tile_size: usize, counterexamples: &Vec<Region>) -> (res: Option<Vec<CompactRegion>>)
        requires
            g.wf(),
            allowed_in_covers.wf(),
            cover_inputs(g@, allowed_in_covers@, tile_size as nat),
        ensures
            res is None == (spec_min_covers(allowed_in_covers@, g@, tile_size as nat, views(counterexamples@).to_set()) is None),
            res matches Some(v) ==> is_key_set(v@)
                && Some(key_set(v@)) == spec_min_covers(allowed_in_covers@, g@, tile_size as nat, views(counterexamples@).to_set()),
    {
        let allowed = allowed_in_covers;
        let k = tile_size;
        let ghost u = allowed@;
        let ghost cexs = views(counterexamples@).to_set();
        let tiles = regions(k);
        let ghost ts = views(tiles@).to_set();
        proof {
            lemma_spec_regions(k as nat);
            assert(ts =~= spec_regions(k as nat));
            assert(tiles_ok(tiles@, k as nat)) by {
                assert forall|j: int| 0 <= j < tiles@.len() implies {
                    &&& strictly_sorted_nodes(#[trigger] tiles@[j]@)
                    &&& tiles@[j]@.len() == k
                    &&& bounded(tiles@[j]@, k as nat)
                } by {
                    assert(views(tiles@)[j] == tiles@[j]@);
                    assert(key_set(tiles@).contains(tiles@[j]@));
                }
            }
        }
        let mut visited: Vec<CompactRegion> = Vec::new();
        let mut level: Vec<CompactRegion> = Vec::new();
        let start = CompactRegion::empty();
        level.push(start);
        let mut depth: usize = 0;
        proof {
            assert(views(level@) =~= seq![0u128]);
            assert(key_set(level@) =~= cover_level(u, g@, ts, 0)) by {
                assert(views(level@)[0] == 0u128);
            }
            assert(key_set(visited@) =~= cover_levels_below(u, g@, ts, 0));
            assert(cover_level_ok(0u128, u, 0, k as nat)) by {
                lemma_decode_in_universe(0u128, u);
                crate::compact::lemma_bits_empty(0u128);
                assert forall|i: int| 0 <= i < 128 && #[trigger] has_bit(0u128, i) implies i < u.len() by {
                    assert(crate::compact::bits(0u128).contains(i));
                }
                if decode(0u128, u).len() > 0 {
                    assert(decode(0u128, u).contains(decode(0u128, u)[0]));
                    let i = choose|i: int| 0 <= i < u.len() && has_bit(0u128, i) && u[i] == decode(0u128, u)[0];
                    assert(crate::compact::bits(0u128).contains(i));
                }
            }
        }
        while level.len() > 0
            invariant
                g.wf(),
                allowed.wf(),
                allowed == allowed_in_covers,
                k == tile_size,
                u == allowed@,
                cover_inputs(g@, u, k as nat),
                tiles_ok(tiles@, k as nat),
                ts == views(tiles@).to_set(),
                ts == spec_regions(k as nat),
                cexs == views(counterexamples@).to_set(),
                is_key_set(level@),
                is_key_set(visited@),
                key_set(level@) == cover_level(u, g@, ts, depth as nat),
                forall|b: u128| #[trigger] key_set(level@).contains(b) ==> cover_level_ok(b, u, depth as nat, k as nat),
                key_set(visited@) == cover_levels_below(u, g@, ts, depth as nat),
                forall|b: u128| #[trigger] key_set(visited@).contains(b) ==> !refuted(b, u, g@, cexs),
                depth <= u.len() + 1,
            decreases u.len() + 1 - depth,
        {
            proof {
                let b0 = level@[0]@;
                assert(views(level@)[0] == b0);
                assert(key_set(level@).contains(b0));
                lemma_decode_in_universe(b0, u);
                lemma_count_bits_le(b0, u.len());
                assert(depth <= depth * k) by (nonlinear_arith)
                    requires
                        k >= 1,
                ;
            }
            let mut next: Vec<CompactRegion> = Vec::new();
            let ghost lv = views(level@);
            let ghost vis0 = key_set(visited@);
            let mut a: usize = 0;
            proof {
                assert(key_set(next@) =~= Set::new(|b2: u128| exists|i: int| 0 <= i < 0 && #[trigger] cover_children(lv[i], u, g@, ts).contains(b2)));
            }
            while a < level.len()
                invariant
                    a <= level@.len(),
                    lv == views(level@),
                    g.wf(),
                    allowed.wf(),
                    allowed == allowed_in_covers,
                    k == tile_size,
                    u == allowed@,
                    cover_inputs(g@, u, k as nat),
                    tiles_ok(tiles@, k as nat),
                    ts == views(tiles@).to_set(),
                    ts == spec_regions(k as nat),
                    cexs == views(counterexamples@).to_set(),
                    key_set(level@) == cover_level(u, g@, ts, depth as nat),
                    is_key_set(visited@),
                    is_key_set(next@),
                    key_set(visited@) == vis0 + lv.subrange(0, a as int).to_set(),
                    forall|b: u128| #[trigger] key_set(visited@).contains(b) ==> !refuted(b, u, g@, cexs),
                    key_set(next@) == Set::new(|b2: u128| exists|i: int| 0 <= i < a && #[trigger] cover_children(lv[i], u, g@, ts).contains(b2)),
                decreases level@.len() - a,
            {
                let c = level[a];
                proof {
                    assert(lv[a as int] == c@);
                    assert(key_set(level@).contains(c@));
                }
                let region = c.to_region(allowed);
                if region.len() >= g.len() && holds_region(counterexamples, &region) && holds_graph(&region, g) {
                    proof {
                        assert(refuted(c@, u, g@, cexs));
                        assert(cover_level(u, g@, ts, depth as nat).contains(c@));
                        assert(cover_reach(u, g@, spec_regions(k as nat)).contains(c@));
                        assert(spec_min_covers(u, g@, k as nat, cexs) is None);
                    }
                    return None;
                }
                let ghost old_vis = key_set(visited@);
                let ghost old_next = key_set(next@);
                insert_key(&mut visited, c);
                add_children(&region, c, g, &tiles, k, allowed, &mut next);
                proof {
                    assert(lv.subrange(0, a + 1) == lv.subrange(0, a as int).push(c@));
                    lv.subrange(0, a as int).lemma_push_to_set_commute(c@);
                    assert(key_set(next@) =~= Set::new(|b2: u128| exists|i: int| 0 <= i < a + 1 && #[trigger] cover_children(lv[i], u, g@, ts).contains(b2))) by {
                        assert forall|b2: u128| #[trigger] key_set(next@).contains(b2) == (exists|i: int| 0 <= i < a + 1 && #[trigger] cover_children(lv[i], u, g@, ts).contains(b2)) by {
                            if key_set(next@).contains(b2) && !old_next.contains(b2) {
                                assert(cover_children(lv[a as int], u, g@, ts).contains(b2));
                            }
                            if exists|i: int| 0 <= i < a + 1 && #[trigger] cover_children(lv[i], u, g@, ts).contains(b2) {
                                let i = choose|i: int| 0 <= i < a + 1 && #[trigger] cover_children(lv[i], u, g@, ts).contains(b2);
                                if i < a {
                                    assert(old_next.contains(b2));
                                }
                            }
                        }
                    }
                }
                a = a + 1;
            }
            proof {
                assert(lv.subrange(0, lv.len() as int) == lv);
                assert(key_set(next@) =~= cover_level(u, g@, ts, (depth + 1) as nat)) by {
                    assert forall|b2: u128| #[trigger] key_set(next@).contains(b2) == cover_level(u, g@, ts, (depth + 1) as nat).contains(b2) by {
                        if key_set(next@).contains(b2) {
                            let i = choose|i: int| 0 <= i < lv.len() && #[trigger] cover_children(lv[i], u, g@, ts).contains(b2);
                            assert(key_set(level@).contains(lv[i]));
                            assert(cover_step(lv[i], b2, u, g@, ts));
                        }
                        if cover_level(u, g@, ts, (depth + 1) as nat).contains(b2) {
                            let b = choose|b: u128| cover_level(u, g@, ts, depth as nat).contains(b) && #[trigger] cover_step(b, b2, u, g@, ts);
                            let i = choose|i: int| 0 <= i < lv.len() && lv[i] == b;
                            assert(cover_children(lv[i], u, g@, ts).contains(b2));
                        }
                    }
                }
                assert forall|b2: u128| #[trigger] key_set(next@).contains(b2) implies cover_level_ok(b2, u, (depth + 1) as nat, k as nat) by {
                    let b = choose|b: u128| cover_level(u, g@, ts, depth as nat).contains(b) && #[trigger] cover_step(b, b2, u, g@, ts);
                    assert forall|t: Seq<Node>| #[trigger] ts.contains(t) implies strictly_sorted_nodes(t) && t.len() == k by {
                        lemma_spec_regions(k as nat);
                    }
                    lemma_child_ok(b, b2, u, g@, ts, depth as nat, k as nat);
                }
                assert(key_set(visited@) =~= cover_levels_below(u, g@, ts, (depth + 1) as nat)) by {
                    assert forall|b: u128| #[trigger] key_set(visited@).contains(b) == cover_levels_below(u, g@, ts, (depth + 1) as nat).contains(b) by {
                        if cover_levels_below(u, g@, ts, (depth + 1) as nat).contains(b) {
                            let e = choose|e: nat| e < depth + 1 && #[trigger] cover_level(u, g@, ts, e).contains(b);
                            if e < depth {
                                assert(cover_levels_below(u, g@, ts, depth as nat).contains(b));
                            }
                        }
                        if key_set(visited@).contains(b) && !vis0.contains(b) {
                            assert(cover_level(u, g@, ts, depth as nat).contains(b));
                        }
                    }
                }
            }
            level = next;
            depth = depth + 1;
        }
        proof {
            assert(cover_level(u, g@, ts, depth as nat) =~= Set::<u128>::empty()) by {
                assert(views(level@).len() == 0);
            }
            assert(cover_reach(u, g@, ts) =~= key_set(visited@)) by {
                assert forall|b: u128| #[trigger] cover_reach(u, g@, ts).contains(b) implies key_set(visited@).contains(b) by {
                    let e = choose|e: nat| #[trigger] cover_level(u, g@, ts, e).contains(b);
                    if e >= depth {
                        lemma_cover_levels_empty(u, g@, ts, depth as nat, e);
                    }
                    assert(cover_levels_below(u, g@, ts, depth as nat).contains(b));
                }
                assert forall|b: u128| #[trigger] key_set(visited@).contains(b) implies cover_reach(u, g@, ts).contains(b) by {
                    let e = choose|e: nat| e < depth && #[trigger] cover_level(u, g@, ts, e).contains(b);
                }
            }
        }
        let covers = select_covers(&visited, g, allowed);
        proof {
            assert(!(exists|b: u128| #[trigger] cover_reach(u, g@, ts).contains(b) && refuted(b, u, g@, cexs)));
            assert(key_set(covers@) =~= Set::new(|b: u128| cover_reach(u, g@, ts).contains(b) && covers_graph(b, u, g@)));
        }
        Some(covers)
    }
}

} // verus!
