//! The metagraph of a graph: its complete tilings, joined by recombination
//! moves.

use vstd::prelude::*;
use crate::lattice::Graph;
use crate::tiling::{Tiling, TilingView};
use crate::graph::UGraph;
use crate::ordset::{key_set, views, is_key_set, insert_key, search};
use crate::sorting::strictly_sorted_nodes;
use crate::enumerate::{room_for_tiles, all_of_graph};
use crate::recomb::spec_recomb;
use crate::reach::{diffs_fit, spec_tiling_neighbors, lemma_complete_proper};
use crate::happy::complete_tilings;

verus! {

/// A graph of tilings joined by recombination moves, the transition system
/// of the recombination Markov chain.  The nodes of `meta` are the
/// positions of the tilings in `nodes`.
pub struct Metagraph<'graph> {
    pub nodes: Vec<Tiling<'graph>>,
    pub meta: UGraph,
}

/// One of the first `q` views of `nv` is `x`.
pub open spec fn found_upto(nv: Seq<TilingView>, q: int, x: TilingView) -> bool {
    exists|l: int| 0 <= l < q && nv[l] == x
}

/// The edges of the metagraph found from the first `i` tilings: `(a, b)`
/// with `a < b` where `b` is a neighbour of `a`.
pub open spec fn edges_upto(g: Seq<crate::node::Node>, cs: Seq<TilingView>, k: nat, i: int) -> Set<(usize, usize)> {
    Set::new(|e: (usize, usize)| e.0 < i && e.0 < e.1 < cs.len()
        && spec_tiling_neighbors(g, cs[e.0 as int], spec_recomb(k)).contains(cs[e.1 as int]))
}

impl<'g> Metagraph<'g> {
    /// The metagraph of the complete tilings of `g` by tiles of size
    /// `tile_size`: two tilings are joined when a recombination moves one to
    /// the other.
    pub fn new(g: &'g Graph, tile_size: usize) -> (m: Metagraph<'g>)
        requires
            g.wf(),
            strictly_sorted_nodes(g@),
            0 < g@.len() <= 254,
            1 <= tile_size <= 20,
            room_for_tiles(g@, tile_size as nat),
            diffs_fit(g@),
        ensures
            is_key_set(m.nodes@),
            all_of_graph(m.nodes@, g@),
            key_set(m.nodes@) == complete_tilings(g@, tile_size as nat),
            m.meta.node_count == m.nodes@.len(),
            m.meta.wf(),
            m.meta.edges@.no_duplicates(),
            m.meta.edges@.to_set() == edges_upto(g@, views(m.nodes@), tile_size as nat, m.nodes@.len() as int),
    {
        let k = tile_size;
        let recomb = crate::recomb::recomb(k);
        proof {
            crate::reach::lemma_recomb_splits_ok(k as nat);
        }
        let all = Tiling::enumerate(g, k);
        let mut complete: Vec<Tiling<'g>> = Vec::new();
        let mut i: usize = 0;
        while i < all.len()
            invariant
                i <= all@.len(),
                is_key_set(all@),
                all_of_graph(all@, g@),
                key_set(all@) == crate::enumerate::spec_enumerate(g@, k as nat),
                is_key_set(complete@),
                all_of_graph(complete@, g@),
                key_set(complete@) == views(all@).subrange(0, i as int).to_set().filter(|t: TilingView| t.1 is None),
            decreases all@.len() - i,
        {
            proof {
                assert(views(all@).subrange(0, i + 1) == views(all@).subrange(0, i as int).push(all@[i as int]@));
                views(all@).subrange(0, i as int).lemma_push_to_set_commute(all@[i as int]@);
            }
            if all[i].is_complete() {
                let ghost before = complete@;
                let t = all[i].duplicate();
                insert_key(&mut complete, t);
                proof {
                    assert forall|j: int| 0 <= j < complete@.len() implies (#[trigger] complete@[j]).wf() && complete@[j].nodes() == g@ by {
                        if complete@[j] != t {
                            let l = choose|l: int| 0 <= l < before.len() && before[l] == complete@[j];
                        }
                    }
                }
            }
            proof {
                assert(key_set(complete@) =~= views(all@).subrange(0, i + 1).to_set().filter(|t: TilingView| t.1 is None));
            }
            i = i + 1;
        }
        proof {
            assert(views(all@).subrange(0, all@.len() as int) == views(all@));
            assert(key_set(complete@) =~= complete_tilings(g@, k as nat));
        }
        let ghost cs = views(complete@);
        let mut edges: Vec<(usize, usize)> = Vec::new();
        let mut a: usize = 0;
        proof {
            assert(edges@.to_set() =~= edges_upto(g@, cs, k as nat, 0));
        }
        while a < complete.len()
            invariant
                a <= complete@.len(),
                cs == views(complete@),
                g.wf(),
                strictly_sorted_nodes(g@),
                0 < g@.len() <= 254,
                1 <= k <= 20,
                diffs_fit(g@),
                recomb.wf(),
                recomb.entries() == spec_recomb(k as nat),
                crate::reach::splits_ok(recomb.entries()),
                is_key_set(complete@),
                all_of_graph(complete@, g@),
                key_set(complete@) == complete_tilings(g@, k as nat),
                forall|e: int| 0 <= e < edges@.len() ==> (#[trigger] edges@[e]).0 < a && edges@[e].0 < edges@[e].1 < complete@.len(),
                edges@.no_duplicates(),
                edges@.to_set() == edges_upto(g@, cs, k as nat, a as int),
            decreases complete@.len() - a,
        {
            let t = &complete[a];
            proof {
                assert(cs[a as int] == t@);
                assert(key_set(complete@).contains(t@));
                t.lemma_wf();
                lemma_complete_proper(g@, k as nat, t@);
                crate::reach::lemma_strict_no_duplicates(g@);
            }
            let nbrs = t.neighbors(&recomb);
            let ghost nv = views(nbrs@);
            let mut q: usize = 0;
            let ghost e0 = edges@;
            proof {
                assert(edges@.to_set() =~= e0.to_set() + Set::new(|e: (usize, usize)| e.0 == a && a < e.1 < cs.len() && found_upto(nv, 0, cs[e.1 as int])));
            }
            while q < nbrs.len()
                invariant
                    q <= nbrs@.len(),
                    a < complete@.len(),
                    cs == views(complete@),
                    nv == views(nbrs@),
                    cs[a as int] == t@,
                    is_key_set(complete@),
                    is_key_set(nbrs@),
                    key_set(nbrs@) == spec_tiling_neighbors(g@, t@, spec_recomb(k as nat)),
                    forall|e: int| 0 <= e < e0.len() ==> (#[trigger] e0[e]).0 < a,
                    forall|e: int| 0 <= e < edges@.len() ==> (#[trigger] edges@[e]).0 <= a && edges@[e].0 < edges@[e].1 < complete@.len(),
                    edges@.no_duplicates(),
                    edges@.to_set() == e0.to_set() + Set::new(|e: (usize, usize)| e.0 == a && a < e.1 < cs.len() && found_upto(nv, q as int, cs[e.1 as int])),
                decreases nbrs@.len() - q,
            {
                let ghost before = edges@;
                proof {
                    assert(nv[q as int] == nbrs@[q as int]@);
                }
                let found = search(&complete, &nbrs[q]);
                match found {
                    Ok(j) => {
                        if a < j {
                            proof {
                                assert(!edges@.contains((a, j))) by {
                                    if edges@.contains((a, j)) {
                                        assert(edges@.to_set().contains((a, j)));
                                        if e0.to_set().contains((a, j)) {
                                            let e2 = choose|e2: int| 0 <= e2 < e0.len() && e0[e2] == (a, j);
                                        }
                                        assert(found_upto(nv, q as int, cs[j as int]));
                                        let l = choose|l: int| 0 <= l < q && nv[l] == cs[j as int];
                                        crate::ordset::lemma_sorted_index_unique::<Tiling>(nv, l, q as int);
                                    }
                                }
                            }
                            edges.push((a, j));
                        }
                    },
                    Err(_) => {},
                }
                proof {
                    assert forall|x: (usize, usize)| #[trigger] edges@.to_set().contains(x) == (e0.to_set() + Set::new(|e: (usize, usize)| e.0 == a && a < e.1 < cs.len()
                        && found_upto(nv, q + 1, cs[e.1 as int]))).contains(x) by {
                        if edges@.to_set().contains(x) && !before.to_set().contains(x) {
                            assert(x == edges@[edges@.len() - 1]);
                            assert(found_upto(nv, q + 1, cs[x.1 as int]));
                        }
                        if before.to_set().contains(x) {
                            let e = choose|e: int| 0 <= e < before.len() && before[e] == x;
                            assert(edges@[e] == x);
                            if !e0.to_set().contains(x) {
                                let l = choose|l: int| 0 <= l < q && nv[l] == cs[x.1 as int];
                                assert(found_upto(nv, q + 1, cs[x.1 as int]));
                            }
                        }
                        if x.0 == a && a < x.1 < cs.len() && found_upto(nv, q + 1, cs[x.1 as int]) {
                            let l = choose|l: int| 0 <= l < q + 1 && nv[l] == cs[x.1 as int];
                            if l < q {
                                assert(found_upto(nv, q as int, cs[x.1 as int]));
                                assert(before.to_set().contains(x));
                                let e = choose|e: int| 0 <= e < before.len() && before[e] == x;
                                assert(edges@[e] == x);
                            } else {
                                assert(key_set(complete@).contains(cs[x.1 as int]));
                                assert(key_set(complete@).contains(nbrs@[q as int]@));
                                match found {
                                    Ok(j) => {
                                        assert(cs[j as int] == cs[x.1 as int]);
                                        crate::ordset::lemma_sorted_index_unique::<Tiling>(cs, j as int, x.1 as int);
                                        assert(edges@[edges@.len() - 1] == x);
                                    },
                                    Err(_) => {},
                                }
                            }
                        }
                        if e0.to_set().contains(x) {
                            let e = choose|e: int| 0 <= e < e0.len() && e0[e] == x;
                            assert(before.to_set().contains(x)) by {
                                assert(before.to_set().contains(e0[e]));
                            }
                            let e3 = choose|e3: int| 0 <= e3 < before.len() && before[e3] == x;
                            assert(edges@[e3] == x);
                        }
                    }
                    assert(edges@.to_set() =~= e0.to_set() + Set::new(|e: (usize, usize)| e.0 == a && a < e.1 < cs.len()
                        && found_upto(nv, q + 1, cs[e.1 as int])));
                }
                q = q + 1;
            }
            proof {
                assert(edges@.to_set() =~= edges_upto(g@, cs, k as nat, a + 1)) by {
                    assert forall|x: (usize, usize)| #[trigger] edges@.to_set().contains(x) == edges_upto(g@, cs, k as nat, a + 1).contains(x) by {
                        if x.0 == a && a < x.1 < cs.len() {
                            if found_upto(nv, nbrs@.len() as int, cs[x.1 as int]) {
                                let l = choose|l: int| 0 <= l < nbrs@.len() && nv[l] == cs[x.1 as int];
                                assert(key_set(nbrs@).contains(cs[x.1 as int]));
                            }
                            if key_set(nbrs@).contains(cs[x.1 as int]) {
                                let l = choose|l: int| 0 <= l < nv.len() && nv[l] == cs[x.1 as int];
                                assert(found_upto(nv, nbrs@.len() as int, cs[x.1 as int]));
                            }
                        }
                        if edges_upto(g@, cs, k as nat, a as int).contains(x) {
                            assert(e0.to_set().contains(x));
                        }
                        if e0.to_set().contains(x) {
                            assert(edges_upto(g@, cs, k as nat, a as int).contains(x));
                        }
                    }
                }
            }
            a = a + 1;
        }
        let n = complete.len();
        Metagraph { nodes: complete, meta: UGraph { node_count: n, edges } }
    }
}

} // verus!
