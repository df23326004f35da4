//! Polyhexes: the connected regions of a given size that start at the
//! origin, and the ways of recombining two of them.

use vstd::prelude::*;
use crate::node::{Node, node_lt, node_in_bounds, neighbors, spec_neighbors};
use crate::region::{Region, neighbor_set};
use crate::ordset::{TotalKey, is_key_set, key_set, views, insert_key};
use crate::sorting::{strictly_sorted_nodes, lemma_strict_implies_sorted};

verus! {

/// `m` lies after the origin in the lexicographic order.
pub open spec fn after_origin(m: Node) -> bool {
    !(m.0 < 0 || (m.0 == 0 && m.1 <= 0))
}

/// `r` is the region `init` grown by the node `m`: `m` is a neighbour of
/// `init` that lies after the origin and is not in `init`.
pub open spec fn grown_by(r: Seq<Node>, init: Seq<Node>, m: Node) -> bool {
    &&& neighbor_set(init).contains(m)
    &&& after_origin(m)
    &&& !init.contains(m)
    &&& strictly_sorted_nodes(r)
    &&& r.to_set() == init.to_set().insert(m)
}

/// The regions that grow `init` by one node.
pub open spec fn growths(init: Seq<Node>) -> Set<Seq<Node>> {
    Set::new(|r: Seq<Node>| exists|m: Node| grown_by(r, init, m))
}

/// The regions of size `n` that start at the origin, grown one node at a
/// time from the origin, each node a neighbour of the earlier ones and after
/// the origin.
pub open spec fn spec_regions(n: nat) -> Set<Seq<Node>>
    decreases n,
{
    if n <= 1 {
        set![seq![(0i8, 0i8)]]
    } else {
        Set::new(|r: Seq<Node>| exists|init: Seq<Node>| spec_regions((n - 1) as nat).contains(init) && #[trigger] growths(init).contains(r))
    }
}

/// The nodes of `r` lie in the box that a region of `n` nodes grown from the
/// origin cannot leave.
pub open spec fn bounded(r: Seq<Node>, n: nat) -> bool {
    forall|i: int| 0 <= i < r.len() ==> 0 <= (#[trigger] r[i]).0 < n && -2 * n + 2 <= r[i].1 <= 2 * n - 2
}

/// Every region of size `n` has `n` nodes in increasing order, the origin
/// first, and lies in the box of side `n`.
pub proof fn lemma_spec_regions(n: nat)
    requires
        n >= 1,
    ensures
        forall|r: Seq<Node>| #[trigger] spec_regions(n).contains(r) ==> {
            &&& strictly_sorted_nodes(r)
            &&& r.len() == n
            &&& bounded(r, n)
            &&& r.contains((0i8, 0i8))
        },
    decreases n,
{
    if n == 1 {
        assert forall|r: Seq<Node>| #[trigger] spec_regions(n).contains(r) implies {
            &&& strictly_sorted_nodes(r)
            &&& r.len() == n
            &&& bounded(r, n)
            &&& r.contains((0i8, 0i8))
        } by {
            assert(r == seq![(0i8, 0i8)]);
            assert(r[0] == (0i8, 0i8));
        }
    } else {
        lemma_spec_regions((n - 1) as nat);
        assert forall|r: Seq<Node>| #[trigger] spec_regions(n).contains(r) implies {
            &&& strictly_sorted_nodes(r)
            &&& r.len() == n
            &&& bounded(r, n)
            &&& r.contains((0i8, 0i8))
        } by {
            let init = choose|init: Seq<Node>| spec_regions((n - 1) as nat).contains(init) && #[trigger] growths(init).contains(r);
            let m = choose|m: Node| grown_by(r, init, m);
            lemma_strict_implies_sorted(init);
            lemma_strict_implies_sorted(r);
            init.unique_seq_to_set();
            r.unique_seq_to_set();
            assert(init.to_set().insert(m).len() == init.to_set().len() + 1);
            let (i, k) = choose|i: int, k: int| 0 <= i < init.len() && 0 <= k < 6 && #[trigger] spec_neighbors(init[i])[k] == m;
            let c = init[i];
            assert(0 <= c.0 < n - 1 && -2 * (n - 1) + 2 <= c.1 <= 2 * (n - 1) - 2);
            assert forall|j: int| 0 <= j < r.len() implies 0 <= (#[trigger] r[j]).0 < n && -2 * n + 2 <= r[j].1 <= 2 * n - 2 by {
                assert(r.to_set().contains(r[j]));
                if r[j] != m {
                    assert(init.to_set().contains(r[j]));
                    let l = choose|l: int| 0 <= l < init.len() && init[l] == r[j];
                }
            }
            assert(init.to_set().contains((0i8, 0i8)));
            assert(r.to_set().contains((0i8, 0i8)));
        }
    }
}

/// `p` is a walk in the lattice through nodes of `r`: each node a
/// neighbour of the one before.
pub open spec fn lattice_walk(r: Set<Node>, p: Seq<Node>) -> bool {
    &&& p.len() > 0
    &&& forall|i: int| 0 <= i < p.len() ==> r.contains(#[trigger] p[i])
    &&& forall|i: int| 0 <= i < p.len() - 1 ==> #[trigger] spec_neighbors(p[i]).contains(p[i + 1])
}

/// `r` is a polyhex of `n` nodes placed at the origin: `n` nodes in
/// increasing order, the origin the least of them, every node joined to the
/// origin by a walk through nodes of `r`.
pub open spec fn polyhex_at_origin(r: Seq<Node>, n: nat) -> bool {
    &&& strictly_sorted_nodes(r)
    &&& r.len() == n
    &&& r[0] == (0i8, 0i8)
    &&& forall|x: Node| #[trigger] r.contains(x) ==> x == (0i8, 0i8) || after_origin(x)
    &&& forall|x: Node| #[trigger] r.contains(x) ==> exists|p: Seq<Node>| #[trigger] lattice_walk(r.to_set(), p)
        && p[0] == (0i8, 0i8) && p.last() == x
}

/// Every region of size `n` is a polyhex of `n` nodes placed at the
/// origin.
pub proof fn lemma_regions_are_polyhexes(n: nat)
    requires
        n >= 1,
    ensures
        forall|r: Seq<Node>| #[trigger] spec_regions(n).contains(r) ==> polyhex_at_origin(r, n),
    decreases n,
{
    let o = (0i8, 0i8);
    lemma_spec_regions(n);
    if n == 1 {
        assert forall|r: Seq<Node>| #[trigger] spec_regions(n).contains(r) implies polyhex_at_origin(r, n) by {
            assert(r == seq![o]);
            assert forall|x: Node| #[trigger] r.contains(x) implies exists|p: Seq<Node>| #[trigger] lattice_walk(r.to_set(), p)
                && p[0] == o && p.last() == x by {
                assert(x == r[0]);
                let p = seq![o];
                assert(r.to_set().contains(o));
                assert(lattice_walk(r.to_set(), p));
            }
        }
    } else {
        lemma_regions_are_polyhexes((n - 1) as nat);
        assert forall|r: Seq<Node>| #[trigger] spec_regions(n).contains(r) implies polyhex_at_origin(r, n) by {
            let init = choose|init: Seq<Node>| spec_regions((n - 1) as nat).contains(init) && #[trigger] growths(init).contains(r);
            let m = choose|m: Node| grown_by(r, init, m);
            assert(polyhex_at_origin(init, (n - 1) as nat));
            assert forall|x: Node| #[trigger] r.contains(x) implies init.contains(x) || x == m by {
                assert(r.to_set().contains(x));
            }
            assert forall|x: Node| #[trigger] init.contains(x) implies r.contains(x) by {
                assert(init.to_set().contains(x));
                assert(r.to_set().contains(x));
            }
            assert forall|x: Node| #[trigger] r.contains(x) implies x == o || after_origin(x) by {
                if x != m {
                    assert(init.contains(x));
                }
            }
            assert(init.contains(init[0]));
            assert(r.contains(o));
            assert(r[0] == o) by {
                let j = choose|j: int| 0 <= j < r.len() && r[j] == o;
                if j > 0 {
                    assert(node_lt(r[0], r[j]));
                    assert(r.contains(r[0]));
                }
            }
            let (i, k) = choose|i: int, k: int| 0 <= i < init.len() && 0 <= k < 6 && #[trigger] spec_neighbors(init[i])[k] == m;
            assert forall|x: Node| #[trigger] r.contains(x) implies exists|p: Seq<Node>| #[trigger] lattice_walk(r.to_set(), p)
                && p[0] == o && p.last() == x by {
                let y = if x == m { init[i] } else { x };
                assert(init.contains(y));
                let p = choose|p: Seq<Node>| #[trigger] lattice_walk(init.to_set(), p) && p[0] == o && p.last() == y;
                assert forall|j: int| 0 <= j < p.len() implies r.to_set().contains(#[trigger] p[j]) by {
                    assert(init.to_set().contains(p[j]));
                    assert(init.contains(p[j]));
                    assert(r.contains(p[j]));
                }
                if x == m {
                    let q = p.push(m);
                    assert(spec_neighbors(init[i]).contains(m)) by {
                        assert(spec_neighbors(init[i])[k] == m);
                    }
                    assert forall|j: int| 0 <= j < q.len() implies r.to_set().contains(#[trigger] q[j]) by {
                        if j < p.len() {
                            assert(q[j] == p[j]);
                        } else {
                            assert(r.contains(m));
                        }
                    }
                    assert forall|j: int| 0 <= j < q.len() - 1 implies #[trigger] spec_neighbors(q[j]).contains(q[j + 1]) by {
                        if j < p.len() - 1 {
                            assert(q[j] == p[j] && q[j + 1] == p[j + 1]);
                            assert(spec_neighbors(p[j]).contains(p[j + 1]));
                        } else {
                            assert(q[j] == init[i]);
                        }
                    }
                    assert(lattice_walk(r.to_set(), q));
                } else {
                    assert(lattice_walk(r.to_set(), p));
                }
            }
        }
    }
}

/// `x` is joined to the origin by a walk through `r` of at most `d` steps.
#[verifier::opaque]
pub open spec fn reach_in(r: Set<Node>, x: Node, d: nat) -> bool {
    exists|p: Seq<Node>| #[trigger] lattice_walk(r, p) && p[0] == (0i8, 0i8) && p.last() == x && p.len() <= d + 1
}

/// The fewest steps of a walk through `r` from the origin to `x`.
#[verifier::opaque]
pub open spec fn walk_dist(r: Set<Node>, x: Node) -> nat {
    choose|d: nat| reach_in(r, x, d) && forall|e: nat| e < d ==> !#[trigger] reach_in(r, x, e)
}

proof fn lemma_walk_dist(r: Set<Node>, x: Node, d0: nat)
    requires
        reach_in(r, x, d0),
    ensures
        reach_in(r, x, walk_dist(r, x)),
        forall|e: nat| e < walk_dist(r, x) ==> !#[trigger] reach_in(r, x, e),
        walk_dist(r, x) <= d0,
    decreases d0,
{
    reveal(walk_dist);
    if exists|e: nat| e < d0 && #[trigger] reach_in(r, x, e) {
        let e = choose|e: nat| e < d0 && #[trigger] reach_in(r, x, e);
        lemma_walk_dist(r, x, e);
    } else {
        assert(exists|d: nat| reach_in(r, x, d) && forall|e: nat| e < d ==> !#[trigger] reach_in(r, x, e));
        let d = walk_dist(r, x);
        if d > d0 {
            assert(!reach_in(r, x, d0));
        }
    }
}

/// A shortest walk to `y` passes only nodes nearer to the origin before
/// reaching `y`.
proof fn lemma_shortest_walk(r: Set<Node>, y: Node) -> (p: Seq<Node>)
    requires
        exists|d: nat| reach_in(r, y, d),
    ensures
        lattice_walk(r, p),
        p[0] == (0i8, 0i8),
        p.last() == y,
        p.len() == walk_dist(r, y) + 1,
        forall|j: int| 0 <= j < p.len() - 1 ==> walk_dist(r, #[trigger] p[j]) <= j,
{
    let d0 = choose|d: nat| reach_in(r, y, d);
    lemma_walk_dist(r, y, d0);
    reveal(reach_in);
    let p = choose|p: Seq<Node>| #[trigger] lattice_walk(r, p) && p[0] == (0i8, 0i8) && p.last() == y && p.len() <= walk_dist(r, y) + 1;
    if p.len() < walk_dist(r, y) + 1 {
        assert(reach_in(r, y, (p.len() - 1) as nat));
    }
    assert forall|j: int| 0 <= j < p.len() - 1 implies walk_dist(r, #[trigger] p[j]) <= j by {
        let q = p.take(j + 1);
        assert(lattice_walk(r, q)) by {
            assert forall|i: int| 0 <= i < q.len() - 1 implies #[trigger] spec_neighbors(q[i]).contains(q[i + 1]) by {
                assert(q[i] == p[i] && q[i + 1] == p[i + 1]);
                assert(spec_neighbors(p[i]).contains(p[i + 1]));
            }
        }
        assert(reach_in(r, p[j], j as nat));
        lemma_walk_dist(r, p[j], j as nat);
    }
    p
}

/// Some node of `s` is at least as far from the origin as every other.
proof fn lemma_farthest(r: Set<Node>, s: Seq<Node>) -> (x: Node)
    requires
        s.len() > 0,
    ensures
        s.contains(x),
        forall|y: Node| #[trigger] s.contains(y) ==> walk_dist(r, y) <= walk_dist(r, x),
    decreases s.len(),
{
    if s.len() == 1 {
        assert(s.contains(s[0]));
        assert forall|y: Node| #[trigger] s.contains(y) implies walk_dist(r, y) <= walk_dist(r, s[0]) by {}
        s[0]
    } else {
        let x0 = lemma_farthest(r, s.drop_last());
        assert(s.drop_last().contains(x0));
        let j = choose|j: int| 0 <= j < s.drop_last().len() && s.drop_last()[j] == x0;
        assert(s[j] == x0);
        let l = s.last();
        assert(s[s.len() - 1] == l);
        assert forall|y: Node| #[trigger] s.contains(y) implies y == l || s.drop_last().contains(y) by {
            let i = choose|i: int| 0 <= i < s.len() && s[i] == y;
            if i < s.len() - 1 {
                assert(s.drop_last()[i] == y);
            }
        }
        if walk_dist(r, l) > walk_dist(r, x0) { l } else { x0 }
    }
}

/// Removing a node from a strictly sorted sequence keeps it strictly sorted
/// and removes just that node.
proof fn lemma_remove_node(r: Seq<Node>, ix: int)
    requires
        strictly_sorted_nodes(r),
        0 < ix < r.len(),
    ensures
        strictly_sorted_nodes(r.remove(ix)),
        r.remove(ix).len() == r.len() - 1,
        r.remove(ix)[0] == r[0],
        forall|y: Node| #[trigger] r.remove(ix).contains(y) <==> r.contains(y) && y != r[ix],
{
    let init = r.remove(ix);
    assert forall|i: int, j: int| 0 <= i < j < init.len() implies node_lt(#[trigger] init[i], #[trigger] init[j]) by {
        let ri = if i < ix { i } else { i + 1 };
        let rj = if j < ix { j } else { j + 1 };
        assert(init[i] == r[ri] && init[j] == r[rj]);
    }
    assert forall|y: Node| #[trigger] init.contains(y) <==> r.contains(y) && y != r[ix] by {
        if init.contains(y) {
            let i = choose|i: int| 0 <= i < init.len() && init[i] == y;
            let ri = if i < ix { i } else { i + 1 };
            assert(r[ri] == y);
            assert(node_lt(r[ri], r[ix]) || node_lt(r[ix], r[ri]));
        }
        if r.contains(y) && y != r[ix] {
            let i = choose|i: int| 0 <= i < r.len() && r[i] == y;
            if i < ix {
                assert(init[i] == y);
            } else {
                assert(init[i - 1] == y);
            }
        }
    }
}

/// In a polyhex of at least two nodes, a node farthest from the origin is
/// not the origin.
proof fn lemma_farthest_not_origin(r: Seq<Node>, n: nat, x: Node)
    requires
        n >= 2,
        polyhex_at_origin(r, n),
        r.contains(x),
        forall|y: Node| #[trigger] r.contains(y) ==> walk_dist(r.to_set(), y) <= walk_dist(r.to_set(), x),
    ensures
        x != (0i8, 0i8),
{
    let o = (0i8, 0i8);
    let rs = r.to_set();
    reveal(reach_in);
    if x == o {
        assert(r.contains(r[0]));
        assert(rs.contains(o));
        assert(lattice_walk(rs, seq![o]));
        assert(reach_in(rs, o, 0));
        lemma_walk_dist(rs, o, 0);
        assert(r.contains(r[1]));
        assert(node_lt(r[0], r[1]));
        let p = choose|p: Seq<Node>| #[trigger] lattice_walk(rs, p) && p[0] == o && p.last() == r[1];
        assert(reach_in(rs, r[1], (p.len() - 1) as nat));
        let q = lemma_shortest_walk(rs, r[1]);
        assert(walk_dist(rs, r[1]) <= walk_dist(rs, o));
        assert(q.len() == 1);
    }
}

/// Without a node farthest from the origin, a polyhex stays joined to the
/// origin.
proof fn lemma_rest_connected(r: Seq<Node>, x: Node, init: Seq<Node>)
    requires
        forall|y: Node| #[trigger] r.contains(y) ==> exists|d: nat| reach_in(r.to_set(), y, d),
        forall|y: Node| #[trigger] r.contains(y) ==> walk_dist(r.to_set(), y) <= walk_dist(r.to_set(), x),
        forall|y: Node| #[trigger] init.contains(y) <==> r.contains(y) && y != x,
    ensures
        forall|y: Node| #[trigger] init.contains(y) ==> exists|p: Seq<Node>| #[trigger] lattice_walk(init.to_set(), p)
            && p[0] == (0i8, 0i8) && p.last() == y,
{
    let rs = r.to_set();
    let is = init.to_set();
    assert forall|y: Node| #[trigger] init.contains(y) implies exists|p: Seq<Node>| #[trigger] lattice_walk(is, p)
        && p[0] == (0i8, 0i8) && p.last() == y by {
        assert(r.contains(y));
        let p = lemma_shortest_walk(rs, y);
        assert forall|j: int| 0 <= j < p.len() implies is.contains(#[trigger] p[j]) by {
            assert(rs.contains(p[j]));
            assert(r.contains(p[j]));
            if j < p.len() - 1 {
                assert(walk_dist(rs, p[j]) <= j);
                assert(p[j] != x);
            }
            assert(init.contains(p[j]));
        }
        assert(lattice_walk(is, p));
    }
}

/// Every node of a polyhex placed at the origin is reached from it.
proof fn lemma_all_reached(r: Seq<Node>, n: nat)
    requires
        polyhex_at_origin(r, n),
    ensures
        forall|y: Node| #[trigger] r.contains(y) ==> exists|d: nat| reach_in(r.to_set(), y, d),
{
    reveal(reach_in);
    assert forall|y: Node| #[trigger] r.contains(y) implies exists|d: nat| reach_in(r.to_set(), y, d) by {
        let p = choose|p: Seq<Node>| #[trigger] lattice_walk(r.to_set(), p) && p[0] == (0i8, 0i8) && p.last() == y;
        assert(reach_in(r.to_set(), y, (p.len() - 1) as nat));
    }
}

/// A node reached from the origin, other than the origin, grows the rest
/// of the region back into the region.
proof fn lemma_grown_back(r: Seq<Node>, x: Node, init: Seq<Node>)
    requires
        strictly_sorted_nodes(r),
        r.contains(x),
        after_origin(x),
        x != (0i8, 0i8),
        exists|d: nat| reach_in(r.to_set(), x, d),
        forall|y: Node| #[trigger] init.contains(y) <==> r.contains(y) && y != x,
    ensures
        grown_by(r, init, x),
{
    let rs = r.to_set();
    let p = lemma_shortest_walk(rs, x);
    assert(p.len() >= 2) by {
        if p.len() == 1 {
            assert(p[0] == (0i8, 0i8));
        }
    }
    let i = p.len() - 2;
    let pred = p[i];
    assert(walk_dist(rs, pred) <= i);
    assert(rs.contains(pred));
    assert(init.contains(pred));
    assert(spec_neighbors(p[i]).contains(p[i + 1]));
    let k = choose|k: int| 0 <= k < 6 && spec_neighbors(pred)[k] == x;
    let ip = choose|ip: int| 0 <= ip < init.len() && init[ip] == pred;
    assert(spec_neighbors(init[ip])[k] == x);
    assert(neighbor_set(init).contains(x));
    assert(r.to_set() =~= init.to_set().insert(x));
}

/// Every polyhex of `n` nodes placed at the origin is a region of size `n`:
/// with `lemma_regions_are_polyhexes`, the regions of size `n` are exactly
/// these polyhexes.
pub proof fn lemma_polyhexes_are_regions(r: Seq<Node>, n: nat)
    requires
        n >= 1,
        polyhex_at_origin(r, n),
    ensures
        spec_regions(n).contains(r),
    decreases n,
{
    let o = (0i8, 0i8);
    if n == 1 {
        assert(r =~= seq![o]);
    } else {
        let rs = r.to_set();
        lemma_all_reached(r, n);
        let x = lemma_farthest(rs, r);
        lemma_farthest_not_origin(r, n, x);
        let ix = choose|ix: int| 0 <= ix < r.len() && r[ix] == x;
        assert(ix != 0);
        let init = r.remove(ix);
        lemma_remove_node(r, ix);
        lemma_rest_connected(r, x, init);
        assert forall|y: Node| #[trigger] init.contains(y) implies y == o || after_origin(y) by {
            assert(r.contains(y));
        }
        assert(polyhex_at_origin(init, (n - 1) as nat));
        lemma_polyhexes_are_regions(init, (n - 1) as nat);
        lemma_grown_back(r, x, init);
        assert(growths(init).contains(r));
    }
}

/// `m` is the `kk`-th neighbour of the `i`-th node of `init`, for a pair
/// `(i, kk)` before `(c, k)` in lexicographic order.
pub open spec fn near(init: Seq<Node>, m: Node, c: int, k: int) -> bool {
    exists|i: int, kk: int| 0 <= i < init.len() && 0 <= kk < 6 && (i < c || (i == c && kk < k)) && #[trigger] spec_neighbors(init[i])[kk] == m
}

/// The growths of `init` by the neighbours met before `(c, k)`.
pub open spec fn growths_upto(init: Seq<Node>, c: int, k: int) -> Set<Seq<Node>> {
    Set::new(|r: Seq<Node>| exists|m: Node| #[trigger] near(init, m, c, k) && after_origin(m) && !init.contains(m)
        && strictly_sorted_nodes(r) && r.to_set() == init.to_set().insert(m))
}

/// All regions held in `v` are strictly sorted.
pub open spec fn all_strict(v: Seq<Region>) -> bool {
    forall|j: int| 0 <= j < v.len() ==> strictly_sorted_nodes(#[trigger] v[j]@)
}

/// Adds to `out` every growth of `init` by one node.
fn add_growths(init: &Region, out: &mut Vec<Region>)
    requires
        is_key_set(old(out)@),
        all_strict(old(out)@),
        strictly_sorted_nodes(init@),
        init.wf(),
        forall|i: int| 0 <= i < init@.len() ==> node_in_bounds(#[trigger] init@[i]),
    ensures
        is_key_set(final(out)@),
        all_strict(final(out)@),
        key_set(final(out)@) == key_set(old(out)@) + growths(init@),
{
    let cells = init.nodes();
    let mut c: usize = 0;
    while c < cells.len()
        invariant
            cells@ == init@,
            c <= cells@.len(),
            init.wf(),
            strictly_sorted_nodes(init@),
            forall|i: int| 0 <= i < init@.len() ==> node_in_bounds(#[trigger] init@[i]),
            is_key_set(out@),
            all_strict(out@),
            key_set(out@) == key_set(old(out)@) + growths_upto(init@, c as int, 0),
        decreases cells@.len() - c,
    {
        let ns = neighbors(&cells[c]);
        let mut k: usize = 0;
        while k < 6
            invariant
                cells@ == init@,
                c < cells@.len(),
                k <= 6,
                init.wf(),
                strictly_sorted_nodes(init@),
                ns@ == spec_neighbors(init@[c as int]),
                is_key_set(out@),
                all_strict(out@),
                key_set(out@) == key_set(old(out)@) + growths_upto(init@, c as int, k as int),
            decreases 6 - k,
        {
            let m = ns[k];
            let ghost before = key_set(out@);
            proof {
                assert(spec_neighbors(init@[c as int])[k as int] == m);
            }
            if !(m.0 < 0 || (m.0 == 0 && m.1 <= 0)) && !init.contains(&m) {
                let mut r = init.copy();
                r.insert(m);
                let ghost rv = r@;
                let ghost old_out = out@;
                insert_key(out, r);
                proof {
                    assert(all_strict(out@)) by {
                        assert forall|j: int| 0 <= j < out@.len() implies strictly_sorted_nodes(#[trigger] out@[j]@) by {
                            assert(key_set(out@).contains(out@[j]@)) by {
                                assert(views(out@)[j] == out@[j]@);
                            }
                            if out@[j]@ != rv {
                                assert(key_set(old_out).contains(out@[j]@));
                                let l = choose|l: int| 0 <= l < views(old_out).len() && views(old_out)[l] == out@[j]@;
                                assert(strictly_sorted_nodes(old_out[l]@));
                            }
                        }
                    }
                    assert(growths_upto(init@, c as int, k + 1) =~= growths_upto(init@, c as int, k as int).insert(rv)) by {
                        assert forall|x: Seq<Node>| #[trigger] growths_upto(init@, c as int, k + 1).contains(x)
                            implies growths_upto(init@, c as int, k as int).insert(rv).contains(x) by {
                            let m2 = choose|m2: Node| #[trigger] near(init@, m2, c as int, k + 1) && after_origin(m2) && !init@.contains(m2)
                                && strictly_sorted_nodes(x) && x.to_set() == init@.to_set().insert(m2);
                            if !near(init@, m2, c as int, k as int) {
                                let (i, kk) = choose|i: int, kk: int| 0 <= i < init@.len() && 0 <= kk < 6 && (i < c || (i == c && kk < k + 1)) && #[trigger] spec_neighbors(init@[i])[kk] == m2;
                                assert(i == c && kk == k);
                                crate::sorting::lemma_strictly_sorted_nodes_unique(x, rv);
                            }
                        }
                        assert forall|x: Seq<Node>| growths_upto(init@, c as int, k as int).insert(rv).contains(x)
                            implies #[trigger] growths_upto(init@, c as int, k + 1).contains(x) by {
                            if x == rv {
                                assert(near(init@, m, c as int, k + 1));
                            } else {
                                let m2 = choose|m2: Node| #[trigger] near(init@, m2, c as int, k as int) && after_origin(m2) && !init@.contains(m2)
                                    && strictly_sorted_nodes(x) && x.to_set() == init@.to_set().insert(m2);
                                let (i, kk) = choose|i: int, kk: int| 0 <= i < init@.len() && 0 <= kk < 6 && (i < c || (i == c && kk < k)) && #[trigger] spec_neighbors(init@[i])[kk] == m2;
                                assert(near(init@, m2, c as int, k + 1));
                            }
                        }
                    }
                }
            } else {
                proof {
                    assert(growths_upto(init@, c as int, k + 1) =~= growths_upto(init@, c as int, k as int)) by {
                        assert forall|x: Seq<Node>| #[trigger] growths_upto(init@, c as int, k + 1).contains(x)
                            implies growths_upto(init@, c as int, k as int).contains(x) by {
                            let m2 = choose|m2: Node| #[trigger] near(init@, m2, c as int, k + 1) && after_origin(m2) && !init@.contains(m2)
                                && strictly_sorted_nodes(x) && x.to_set() == init@.to_set().insert(m2);
                            if !near(init@, m2, c as int, k as int) {
                                let (i, kk) = choose|i: int, kk: int| 0 <= i < init@.len() && 0 <= kk < 6 && (i < c || (i == c && kk < k + 1)) && #[trigger] spec_neighbors(init@[i])[kk] == m2;
                                assert(i == c && kk == k);
                            }
                        }
                        assert forall|x: Seq<Node>| #[trigger] growths_upto(init@, c as int, k as int).contains(x)
                            implies growths_upto(init@, c as int, k + 1).contains(x) by {
                            let m2 = choose|m2: Node| #[trigger] near(init@, m2, c as int, k as int) && after_origin(m2) && !init@.contains(m2)
                                && strictly_sorted_nodes(x) && x.to_set() == init@.to_set().insert(m2);
                            let (i, kk) = choose|i: int, kk: int| 0 <= i < init@.len() && 0 <= kk < 6 && (i < c || (i == c && kk < k)) && #[trigger] spec_neighbors(init@[i])[kk] == m2;
                            assert(near(init@, m2, c as int, k + 1));
                        }
                    }
                }
            }
            k = k + 1;
        }
        proof {
            assert(growths_upto(init@, c + 1, 0) =~= growths_upto(init@, c as int, 6)) by {
                assert forall|m2: Node| near(init@, m2, c + 1, 0) == near(init@, m2, c as int, 6) by {
                    if near(init@, m2, c + 1, 0) {
                        let (i, kk) = choose|i: int, kk: int| 0 <= i < init@.len() && 0 <= kk < 6 && (i < c + 1 || (i == c + 1 && kk < 0)) && #[trigger] spec_neighbors(init@[i])[kk] == m2;
                    }
                    if near(init@, m2, c as int, 6) {
                        let (i, kk) = choose|i: int, kk: int| 0 <= i < init@.len() && 0 <= kk < 6 && (i < c || (i == c && kk < 6)) && #[trigger] spec_neighbors(init@[i])[kk] == m2;
                    }
                }
                assert forall|x: Seq<Node>| #[trigger] growths_upto(init@, c + 1, 0).contains(x) == growths_upto(init@, c as int, 6).contains(x) by {
                    if growths_upto(init@, c + 1, 0).contains(x) {
                        let m2 = choose|m2: Node| #[trigger] near(init@, m2, c + 1, 0) && after_origin(m2) && !init@.contains(m2)
                            && strictly_sorted_nodes(x) && x.to_set() == init@.to_set().insert(m2);
                        assert(near(init@, m2, c as int, 6));
                    }
                    if growths_upto(init@, c as int, 6).contains(x) {
                        let m2 = choose|m2: Node| #[trigger] near(init@, m2, c as int, 6) && after_origin(m2) && !init@.contains(m2)
                            && strictly_sorted_nodes(x) && x.to_set() == init@.to_set().insert(m2);
                        assert(near(init@, m2, c + 1, 0));
                    }
                }
            }
        }
        c = c + 1;
    }
    proof {
        assert(growths_upto(init@, init@.len() as int, 0) =~= growths(init@)) by {
            assert forall|m2: Node| #[trigger] near(init@, m2, init@.len() as int, 0) == neighbor_set(init@).contains(m2) by {
                if near(init@, m2, init@.len() as int, 0) {
                    let (i, kk) = choose|i: int, kk: int| 0 <= i < init@.len() && 0 <= kk < 6 && (i < init@.len() || (i == init@.len() && kk < 0)) && #[trigger] spec_neighbors(init@[i])[kk] == m2;
                }
                if neighbor_set(init@).contains(m2) {
                    let (i, kk) = choose|i: int, kk: int| 0 <= i < init@.len() && 0 <= kk < 6 && #[trigger] spec_neighbors(init@[i])[kk] == m2;
                    assert(near(init@, m2, init@.len() as int, 0));
                }
            }
            assert forall|x: Seq<Node>| #[trigger] growths(init@).contains(x) == growths_upto(init@, init@.len() as int, 0).contains(x) by {
                if growths(init@).contains(x) {
                    let m2 = choose|m2: Node| grown_by(x, init@, m2);
                    assert(near(init@, m2, init@.len() as int, 0));
                }
                if growths_upto(init@, init@.len() as int, 0).contains(x) {
                    let m2 = choose|m2: Node| #[trigger] near(init@, m2, init@.len() as int, 0) && after_origin(m2) && !init@.contains(m2)
                        && strictly_sorted_nodes(x) && x.to_set() == init@.to_set().insert(m2);
                    assert(grown_by(x, init@, m2));
                }
            }
        }
    }
}

/// All connected regions of size `n` whose lexicographically smallest node
/// is the origin, in increasing order.
pub fn regions(n: usize) -> (r: Vec<Region>)
    requires
        1 <= n <= 63,
    ensures
        is_key_set(r@),
        all_strict(r@),
        forall|j: int| 0 <= j < r@.len() ==> (#[trigger] r@[j]).wf(),
        key_set(r@) == spec_regions(n as nat),
    decreases n,
{
    if n == 1 {
        let mut v: Vec<Node> = Vec::new();
        v.push((0i8, 0i8));
        let origin = Region::from_sorted(v);
        let mut out: Vec<Region> = Vec::new();
        out.push(origin);
        proof {
            assert(origin@ =~= seq![(0i8, 0i8)]);
            assert(views(out@) =~= seq![seq![(0i8, 0i8)]]);
            assert(key_set(out@) =~= spec_regions(1)) by {
                assert(views(out@)[0] == seq![(0i8, 0i8)]);
            }
        }
        return out;
    }
    let prev = regions(n - 1);
    proof {
        lemma_spec_regions((n - 1) as nat);
    }
    let mut out: Vec<Region> = Vec::new();
    let mut i: usize = 0;
    while i < prev.len()
        invariant
            2 <= n <= 63,
            i <= prev@.len(),
            is_key_set(prev@),
            all_strict(prev@),
            key_set(prev@) == spec_regions((n - 1) as nat),
            forall|r: Seq<Node>| #[trigger] spec_regions((n - 1) as nat).contains(r) ==> {
                &&& strictly_sorted_nodes(r)
                &&& r.len() == n - 1
                &&& bounded(r, (n - 1) as nat)
                &&& r.contains((0i8, 0i8))
            },
            is_key_set(out@),
            all_strict(out@),
            key_set(out@) == Set::new(|r: Seq<Node>| exists|a: int| 0 <= a < i && #[trigger] growths(prev@[a]@).contains(r)),
        decreases prev@.len() - i,
    {
        let init = &prev[i];
        let ghost before = key_set(out@);
        proof {
            assert(views(prev@)[i as int] == init@);
            assert(spec_regions((n - 1) as nat).contains(init@));
            lemma_strict_implies_sorted(init@);
            assert forall|j: int| 0 <= j < init@.len() implies node_in_bounds(#[trigger] init@[j]) by {
                assert(bounded(init@, (n - 1) as nat));
                assert(0 <= init@[j].0 < n - 1);
            }
        }
        add_growths(init, &mut out);
        proof {
            assert(key_set(out@) =~= Set::new(|r: Seq<Node>| exists|a: int| 0 <= a < i + 1 && #[trigger] growths(prev@[a]@).contains(r))) by {
                assert forall|r: Seq<Node>| #[trigger] key_set(out@).contains(r) implies exists|a: int| 0 <= a < i + 1 && #[trigger] growths(prev@[a]@).contains(r) by {
                    if !before.contains(r) {
                        assert(growths(prev@[i as int]@).contains(r));
                    }
                }
            }
        }
        i = i + 1;
    }
    proof {
        assert(key_set(out@) =~= spec_regions(n as nat)) by {
            assert forall|r: Seq<Node>| #[trigger] key_set(out@).contains(r) == spec_regions(n as nat).contains(r) by {
                if key_set(out@).contains(r) {
                    let a = choose|a: int| 0 <= a < prev@.len() && #[trigger] growths(prev@[a]@).contains(r);
                    assert(views(prev@)[a] == prev@[a]@);
                    assert(spec_regions((n - 1) as nat).contains(prev@[a]@));
                }
                if spec_regions(n as nat).contains(r) {
                    let init = choose|init: Seq<Node>| spec_regions((n - 1) as nat).contains(init) && #[trigger] growths(init).contains(r);
                    assert(key_set(prev@).contains(init));
                    let a = choose|a: int| 0 <= a < views(prev@).len() && views(prev@)[a] == init;
                    assert(prev@[a]@ == init);
                    assert(growths(prev@[a]@).contains(r));
                }
            }
        }
        assert forall|j: int| 0 <= j < out@.len() implies (#[trigger] out@[j]).wf() by {
            lemma_strict_implies_sorted(out@[j]@);
        }
    }
    out
}

} // verus!
