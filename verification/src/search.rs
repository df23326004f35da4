//! The search for a fixed region between a required and an allowed set of
//! nodes, every cover of which has a metagraph that reaches, in each of its
//! connected components, a completion of a given partial tiling.

use vstd::prelude::*;
use std::collections::BTreeMap;
use std::num::NonZeroUsize;
use lru::LruCache;
use crate::node::{Node, neighbors, spec_neighbors, node_in_bounds};
use crate::color::Color;
use crate::lattice::Graph;
use crate::region::Region;
use crate::compact::{CompactRegion, decode, mask_of, lemma_mask_of};
use crate::ordset::{key_set, views, is_key_set, insert_key, contains_key};
use crate::sorting::strictly_sorted_nodes;
use crate::enumerate::room_for_tiles;
use crate::covers::{potential_covers, cover_inputs, lemma_no_counterexamples, refuted, cover_reach, has_room};
use crate::happy::{map_entries, partial_tile_set, partial_tile, partial_tiles, tile_sets, spec_happy, cover_is_happy, lemma_cover_fits};
use crate::reach::diffs_fit;
use crate::tiling::Tiling;
use crate::concurrency::{WithCost, Worklist, PopStep, item};
use crate::region::neighbor_set;
use vstd::multiset::Multiset;

verus! {

broadcast use vstd::seq_lib::group_to_multiset_ensures;

#[verifier::external_type_specification]
#[verifier::external_body]
#[verifier::reject_recursive_types(K)]
#[verifier::reject_recursive_types(V)]
#[verifier::reject_recursive_types(S)]
pub struct ExLruCache<K, V, S>(LruCache<K, V, S>);

#[verifier::external_type_specification]
#[verifier::external_body]
pub struct ExLruHasher(lru::DefaultHasher);

/// The keys held by a cache of covers.
pub uninterp spec fn cached_keys(c: LruCache<u128, ()>) -> Set<u128>;

/// The number of keys a cache of covers was made to hold.
pub uninterp spec fn cache_capacity(c: LruCache<u128, ()>) -> nat;

/// `lru::LruCache::new`: an empty cache holding at most `cap` keys.
#[verifier::external_body]
fn new_cache(cap: usize) -> (c: LruCache<u128, ()>)
    requires
        cap > 0,
    ensures
        cached_keys(c) == Set::<u128>::empty(),
        cache_capacity(c) == cap,
{
    LruCache::new(NonZeroUsize::new(cap).unwrap())
}

/// `lru::LruCache::get`: whether the cache holds `k`.  The source moves a
/// key it finds to the front of its order of use, and changes no key.
#[verifier::external_body]
fn cache_get(c: &mut LruCache<u128, ()>, k: u128) -> (r: bool)
    ensures
        r == cached_keys(*old(c)).contains(k),
        cached_keys(*final(c)) == cached_keys(*old(c)),
        cache_capacity(*final(c)) == cache_capacity(*old(c)),
{
    c.get(&k).is_some()
}

/// `lru::LruCache::put`: adds `k`.  As the source shows, the cache then
/// holds `k` and otherwise only keys it held; when it was not full, or held
/// `k` already, it keeps all of them.  Which key a full cache drops is not
/// stated.
#[verifier::external_body]
fn cache_put(c: &mut LruCache<u128, ()>, k: u128)
    ensures
        cached_keys(*final(c)).contains(k),
        cached_keys(*final(c)).subset_of(cached_keys(*old(c)).insert(k)),
        cached_keys(*old(c)).len() < cache_capacity(*old(c)) || cached_keys(*old(c)).contains(k)
            ==> cached_keys(*final(c)) == cached_keys(*old(c)).insert(k),
        cache_capacity(*final(c)) == cache_capacity(*old(c)),
{
    c.put(k, ());
}

/// Every cover in the cache is happy.
pub open spec fn cache_good(keys: Set<u128>, u: Seq<Node>, k: nat, tiles: Set<Set<Node>>) -> bool {
    forall|b: u128| #[trigger] keys.contains(b) ==> spec_happy(decode(b, u), k, tiles)
}

/// Every counterexample is a region that is not happy.
pub open spec fn counterexamples_bad(cexs: Seq<Region>, k: nat, tiles: Set<Set<Node>>) -> bool {
    forall|i: int| 0 <= i < cexs.len() ==> !spec_happy(#[trigger] cexs[i]@, k, tiles)
}

/// Every potential cover of `g` is happy.
pub open spec fn all_covers_happy(u: Seq<Node>, g: Seq<Node>, k: nat, tiles: Set<Set<Node>>) -> bool {
    forall|c: u128| #[trigger] potential_covers(u, g, k).contains(c) ==> spec_happy(decode(c, u), k, tiles)
}

/// Whether the nodes of `g` all lie in `r`.
fn region_holds(r: &Region, g: &Graph) -> (b: bool)
    requires
        g.wf(),
    ensures
        b == forall|i: int| 0 <= i < g@.len() ==> r@.contains(#[trigger] g@[i]),
{
    let nodes = g.nodes();
    let mut i: usize = 0;
    while i < nodes.len()
        invariant
            i <= nodes.len(),
            nodes@ == g@,
            forall|j: int| 0 <= j < i ==> r@.contains(#[trigger] g@[j]),
        decreases nodes.len() - i,
    {
        if !r.contains(&nodes[i]) {
            return false;
        }
        i = i + 1;
    }
    true
}

/// Checks the region `graph`: `Ok` when every one of its potential covers
/// is happy (so also when it has none); `Err` with a cover that is not, or
/// with none when the region is refuted by a known counterexample.  Happy covers are kept in `cache`
/// and not checked again.  With `exact_cover_check`, a region is refuted
/// when one of its potential covers is a counterexample; without it, when a
/// counterexample holds all its nodes.
fn check_graph(
    graph: &Graph,
    allowed_in_covers: &Graph,
    tile_size: usize,
    tiles: &Vec<Vec<Node>>,
    counterexamples: &Vec<Region>,
    exact_cover_check: bool,
    cache: &mut LruCache<u128, ()>,
) -> (r: Result<(), Option<CompactRegion>>)
    requires
        graph.wf(),
        allowed_in_covers.wf(),
        cover_inputs(graph@, allowed_in_covers@, tile_size as nat),
        room_for_tiles(allowed_in_covers@, tile_size as nat),
        diffs_fit(allowed_in_covers@),
        forall|j: int| 0 <= j < tiles@.len() ==> (#[trigger] tiles@[j])@.len() > 0,
        cache_good(cached_keys(*old(cache)), allowed_in_covers@, tile_size as nat, tile_sets(tiles@)),
        counterexamples_bad(counterexamples@, tile_size as nat, tile_sets(tiles@)),
    ensures
        cache_good(cached_keys(*final(cache)), allowed_in_covers@, tile_size as nat, tile_sets(tiles@)),
        r is Ok ==> all_covers_happy(allowed_in_covers@, graph@, tile_size as nat, tile_sets(tiles@)),
        r matches Err(Some(c)) ==> potential_covers(allowed_in_covers@, graph@, tile_size as nat).contains(c@)
            && !spec_happy(decode(c@, allowed_in_covers@), tile_size as nat, tile_sets(tiles@)),
        exact_cover_check && r is Err ==> !all_covers_happy(allowed_in_covers@, graph@, tile_size as nat, tile_sets(tiles@)),
        r is Err ==> !all_covers_happy(allowed_in_covers@, graph@, tile_size as nat, tile_sets(tiles@))
            || exists|i: int| 0 <= i < counterexamples@.len() && graph@.to_set().subset_of((#[trigger] counterexamples@[i])@.to_set()),
{
    let ghost u = allowed_in_covers@;
    let ghost k = tile_size as nat;
    let ghost ts = tile_sets(tiles@);
    if !exact_cover_check {
        let mut i: usize = 0;
        while i < counterexamples.len()
            invariant
                i <= counterexamples.len(),
                graph.wf(),
                !exact_cover_check,
                cache_good(cached_keys(*cache), allowed_in_covers@, tile_size as nat, tile_sets(tiles@)),
                *cache == *old(cache),
            decreases counterexamples.len() - i,
        {
            if region_holds(&counterexamples[i], graph) {
                proof {
                    assert(graph@.to_set().subset_of(counterexamples@[i as int]@.to_set())) by {
                        assert forall|x: Node| graph@.to_set().contains(x) implies counterexamples@[i as int]@.to_set().contains(x) by {
                            let j = choose|j: int| 0 <= j < graph@.len() && graph@[j] == x;
                            assert(counterexamples@[i as int]@.contains(graph@[j]));
                        }
                    }
                }
                return Err(None);
            }
            i = i + 1;
        }
    }
    let no_counterexamples: Vec<Region> = Vec::new();
    let covers = if exact_cover_check {
        Tiling::min_covers(graph, allowed_in_covers, tile_size, counterexamples)
    } else {
        Tiling::min_covers(graph, allowed_in_covers, tile_size, &no_counterexamples)
    };
    let ghost cexs = if exact_cover_check { views(counterexamples@).to_set() } else { views(no_counterexamples@).to_set() };
    let ghost cset = potential_covers(u, graph@, k);
    proof {
        lemma_no_counterexamples(u, graph@, k);
        if !exact_cover_check {
            assert(views(no_counterexamples@).to_set() =~= Set::<Seq<Node>>::empty());
        }
    }
    let covers = match covers {
        Some(v) => v,
        None => {
            proof {
                let b = choose|b: u128| #[trigger] cover_reach(u, graph@, crate::polyhex::spec_regions(k)).contains(b) && refuted(b, u, graph@, cexs);
                assert(cexs.contains(decode(b, u)));
                let j = choose|j: int| 0 <= j < views(counterexamples@).len() && views(counterexamples@)[j] == decode(b, u);
                assert(!spec_happy(counterexamples@[j]@, k, ts));
                assert(cset.contains(b));
            }
            return Err(None);
        },
    };
    proof {
        if exact_cover_check {
            assert(!exists|b: u128| #[trigger] cover_reach(u, graph@, crate::polyhex::spec_regions(k)).contains(b) && refuted(b, u, graph@, cexs));
            assert(key_set(covers@) =~= cset);
        }
        assert(key_set(covers@) == cset);
    }
    let mut i: usize = 0;
    while i < covers.len()
        invariant
            i <= covers@.len(),
            u == allowed_in_covers@,
            k == tile_size as nat,
            ts == tile_sets(tiles@),
            forall|j: int| 0 <= j < tiles@.len() ==> (#[trigger] tiles@[j])@.len() > 0,
            allowed_in_covers.wf(),
            cover_inputs(graph@, u, k),
            room_for_tiles(u, k),
            diffs_fit(u),
            key_set(covers@) == cset,
            cset == potential_covers(u, graph@, k),
            cache_good(cached_keys(*cache), u, k, ts),
            forall|j: int| 0 <= j < i ==> spec_happy(decode(#[trigger] views(covers@)[j], u), k, ts),
        decreases covers@.len() - i,
    {
        let c = covers[i];
        proof {
            assert(views(covers@)[i as int] == c@);
            assert(cset.contains(c@));
        }
        if cache_get(cache, c.bits()) {
            proof {
                assert(cached_keys(*cache).contains(c@));
            }
        } else {
            proof {
                lemma_cover_fits(c@, u, graph@, k);
            }
            let region = c.to_region(allowed_in_covers);
            let g = Graph::from(region);
            if cover_is_happy(&g, tiles, tile_size) {
                let ghost keys0 = cached_keys(*cache);
                cache_put(cache, c.bits());
                proof {
                    assert forall|b: u128| #[trigger] cached_keys(*cache).contains(b) implies spec_happy(decode(b, u), k, ts) by {
                        if b != c@ {
                            assert(keys0.insert(c@).contains(b));
                        }
                    }
                }
            } else {
                return Err(Some(c));
            }
        }
        i = i + 1;
    }
    proof {
        assert forall|c: u128| #[trigger] cset.contains(c) implies spec_happy(decode(c, u), k, ts) by {
            assert(key_set(covers@).contains(c));
            let j = choose|j: int| 0 <= j < views(covers@).len() && views(covers@)[j] == c;
        }
    }
    Ok(())
}

/// The largest cost, up or down, that a single node may add to a region in
/// the search: the sums over at most 128 nodes then fit in `isize`.
pub open spec fn cost_bound() -> int {
    isize::MAX as int / 128
}

/// A region the search may try: between `base` and `ext`, sorted.
pub open spec fn candidate(g: Seq<Node>, base: Seq<Node>, ext: Seq<Node>) -> bool {
    &&& strictly_sorted_nodes(g)
    &&& base.to_set().subset_of(g.to_set())
    &&& g.to_set().subset_of(ext.to_set())
}

/// A task of the search: a candidate region with a cost of at most
/// `cost_bound()` for each of its nodes.
pub open spec fn task_ok(x: (Seq<Node>, int), base: Seq<Node>, ext: Seq<Node>) -> bool {
    &&& candidate(x.0, base, ext)
    &&& -(x.0.len() * cost_bound()) <= x.1 <= x.0.len() * cost_bound()
}

/// A sequence without repeats within the nodes of another is no longer.
proof fn lemma_len_within(a: Seq<Node>, b: Seq<Node>)
    requires
        a.no_duplicates(),
        a.to_set().subset_of(b.to_set()),
    ensures
        a.len() <= b.len(),
{
    a.unique_seq_to_set();
    b.lemma_cardinality_of_set();
    vstd::set_lib::lemma_len_subset(a.to_set(), b.to_set());
}

/// The number of values of `u128`.
pub open spec fn u128_count() -> nat {
    0x1_0000_0000_0000_0000_0000_0000_0000_0000nat
}

/// The values of `u128` below `n`.
pub open spec fn u128_below(n: nat) -> Set<u128> {
    Set::new(|x: u128| x < n)
}

proof fn lemma_u128_below(n: nat)
    requires
        n <= u128_count(),
    ensures
        u128_below(n).finite(),
        u128_below(n).len() == n,
    decreases n,
{
    if n == 0 {
        assert(u128_below(0) =~= Set::empty());
    } else {
        lemma_u128_below((n - 1) as nat);
        assert(u128_below(n) =~= u128_below((n - 1) as nat).insert((n - 1) as u128));
    }
}

/// A finite set of `u128` values holds at most `2^128` of them.
proof fn lemma_u128_set_len(s: Set<u128>)
    requires
        s.finite(),
    ensures
        s.len() <= u128_count(),
{
    lemma_u128_below(u128_count());
    assert(s.subset_of(u128_below(u128_count())));
    vstd::set_lib::lemma_len_subset(s, u128_below(u128_count()));
}

/// `g` is the region `t` grown by the node `m` of `ext` next to it.
pub open spec fn grows_by(t: Seq<Node>, m: Node, g: Seq<Node>, ext: Seq<Node>) -> bool {
    &&& neighbor_set(t).contains(m)
    &&& ext.contains(m)
    &&& !t.contains(m)
    &&& strictly_sorted_nodes(g)
    &&& g.to_set() == t.to_set().insert(m)
}

/// The regions reached from `base` by growing it at most `n` times by a
/// node of `ext` next to it.
pub open spec fn grown_from(base: Seq<Node>, ext: Seq<Node>, n: nat) -> Set<Seq<Node>>
    decreases n,
{
    if n == 0 {
        set![base]
    } else {
        let prev = grown_from(base, ext, (n - 1) as nat);
        Set::new(|g: Seq<Node>| prev.contains(g) || exists|t: Seq<Node>, m: Node| #[trigger] prev.contains(t) && #[trigger] grows_by(t, m, g, ext))
    }
}

/// If `t` grows by `m` into a region not in `tried`, that region is the data
/// of one of `v`.
pub open spec fn child_listed(v: Seq<WithCost<Region>>, t: Seq<Node>, m: Node, tried: Set<Seq<Node>>, ext: Seq<Node>) -> bool {
    forall|g: Seq<Node>| #[trigger] grows_by(t, m, g, ext) && !tried.contains(g) ==> exists|j: int| 0 <= j < v.len() && (#[trigger] v[j]).0@ == g
}

/// Every region that some tried region grows into is tried, or is the data
/// of a task.
pub open spec fn growth_covered(tried: Set<Seq<Node>>, items: Multiset<(Seq<Node>, int)>, ext: Seq<Node>) -> bool {
    forall|t: Seq<Node>, m: Node, g: Seq<Node>| #[trigger] tried.contains(t) && #[trigger] grows_by(t, m, g, ext)
        ==> tried.contains(g) || exists|c: int| #[trigger] items.count((g, c)) > 0
}

/// `g` is grown from `base` within `ext`, in any number of steps.
pub open spec fn grown(base: Seq<Node>, ext: Seq<Node>, g: Seq<Node>) -> bool {
    exists|n: nat| #[trigger] grown_from(base, ext, n).contains(g)
}

/// All nodes of `t` lie in a potential cover, found not happy, of a region
/// grown from `base` within `ext`.
pub open spec fn within_bad_cover(u: Seq<Node>, base: Seq<Node>, ext: Seq<Node>, k: nat, tiles: Set<Set<Node>>, t: Seq<Node>) -> bool {
    exists|c: u128, g: Seq<Node>| #[trigger] potential_covers(u, g, k).contains(c) && grown(base, ext, g)
        && !spec_happy(decode(c, u), k, tiles) && t.to_set().subset_of(decode(c, u).to_set())
}

/// What the search learned of a region it tried and did not take: with the
/// exact check, one of its covers is not happy; without it, that, or its
/// nodes lie in a cover found not happy.
pub open spec fn refuted_region(u: Seq<Node>, base: Seq<Node>, ext: Seq<Node>, k: nat, tiles: Set<Set<Node>>, exact: bool, t: Seq<Node>) -> bool {
    if exact {
        !all_covers_happy(u, t, k, tiles)
    } else {
        !all_covers_happy(u, t, k, tiles) || within_bad_cover(u, base, ext, k, tiles, t)
    }
}

proof fn lemma_grown_step(base: Seq<Node>, ext: Seq<Node>, t: Seq<Node>, m: Node, g: Seq<Node>)
    requires
        grown(base, ext, t),
        grows_by(t, m, g, ext),
    ensures
        grown(base, ext, g),
{
    let n = choose|n: nat| #[trigger] grown_from(base, ext, n).contains(t);
    assert(grown_from(base, ext, n + 1).contains(g));
}

/// With no room to grow, searching checks the base region alone: the only
/// region grown from `base` within `base` itself is `base`.
pub proof fn lemma_grown_within_base(base: Seq<Node>, n: nat)
    ensures
        grown_from(base, base, n) == set![base],
    decreases n,
{
    if n > 0 {
        lemma_grown_within_base(base, (n - 1) as nat);
        assert forall|g: Seq<Node>| grown_from(base, base, n).contains(g) implies g == base by {
            if !grown_from(base, base, (n - 1) as nat).contains(g) {
                let (t, m) = choose|t: Seq<Node>, m: Node| #[trigger] grown_from(base, base, (n - 1) as nat).contains(t) && #[trigger] grows_by(t, m, g, base);
                assert(t == base);
            }
        }
        assert(grown_from(base, base, n) =~= set![base]);
    }
}

/// A set holding `base` and closed under growing holds every region grown
/// from `base`.
proof fn lemma_grown_within(base: Seq<Node>, ext: Seq<Node>, s: Set<Seq<Node>>, n: nat)
    requires
        s.contains(base),
        forall|t: Seq<Node>, m: Node, g: Seq<Node>| #[trigger] s.contains(t) && #[trigger] grows_by(t, m, g, ext) ==> s.contains(g),
    ensures
        grown_from(base, ext, n).subset_of(s),
    decreases n,
{
    if n > 0 {
        lemma_grown_within(base, ext, s, (n - 1) as nat);
        let prev = grown_from(base, ext, (n - 1) as nat);
        assert forall|g: Seq<Node>| grown_from(base, ext, n).contains(g) implies s.contains(g) by {
            if !prev.contains(g) {
                let (t, m) = choose|t: Seq<Node>, m: Node| #[trigger] prev.contains(t) && #[trigger] grows_by(t, m, g, ext);
                assert(s.contains(t));
            }
        }
    }
}

/// The regions tried by the search are at most as many as the values of
/// `u128`: each is told apart by its bitset over the extensions.
proof fn lemma_tried_bound(tried: Set<Seq<Node>>, b: Seq<Node>, ext: Seq<Node>, u: Seq<Node>, k: nat)
    requires
        tried.finite(),
        forall|t: Seq<Node>| #[trigger] tried.contains(t) ==> candidate(t, b, ext),
        cover_inputs(ext, u, k),
    ensures
        tried.len() <= u128_count(),
{
    crate::reach::lemma_strict_no_duplicates(ext);
    assert forall|x: Node| ext.to_set().contains(x) implies u.to_set().contains(x) by {
        let a = choose|a: int| 0 <= a < ext.len() && ext[a] == x;
        assert(u.contains(ext[a]));
    }
    lemma_len_within(ext, u);
    let f = |t: Seq<Node>| mask_of(t, ext, ext.len());
    assert forall|t1: Seq<Node>, t2: Seq<Node>| tried.contains(t1) && tried.contains(t2) && #[trigger] f(t1) == #[trigger] f(t2)
        implies t1 == t2 by {
        lemma_mask_of(t1, ext, ext.len());
        lemma_mask_of(t2, ext, ext.len());
        CompactRegion::lemma_roundtrip(f(t1), t1, ext);
        CompactRegion::lemma_roundtrip(f(t2), t2, ext);
    }
    vstd::set_lib::lemma_map_size(tried, tried.map(f), f);
    lemma_u128_set_len(tried.map(f));
}

/// The regions that grow `region` by one node of `extensions` next to it,
/// each with the cost of `region` plus that of the new node, leaving out
/// those already tried.
#[verifier::rlimit(40)]
fn grow<F: Fn(Node) -> isize>(
    region: &Region,
    curr_cost: isize,
    Ghost(base): Ghost<Seq<Node>>,
    extensions: &Graph,
    tried: &Vec<Region>,
    cost: &F,
) -> (v: Vec<WithCost<Region>>)
    requires
        region.wf(),
        extensions.wf(),
        task_ok((region@, curr_cost as int), base, extensions@),
        cover_inputs(extensions@, extensions@, 1),
        is_key_set(tried@),
        forall|n: Node| (*cost).requires((n,)),
        forall|n: Node, c: isize| (*cost).ensures((n,), c) ==> -cost_bound() <= c <= cost_bound(),
    ensures
        forall|j: int| 0 <= j < v@.len() ==> #[trigger] task_ok(item(v@[j]), base, extensions@),
        forall|j: int| 0 <= j < v@.len() ==> (#[trigger] v@[j]).0.wf() && v@[j].0@.len() == region@.len() + 1
            && exists|m: Node| #![trigger (*cost).ensures((m,), (v@[j].1 - curr_cost) as isize)]
                neighbor_set(region@).contains(m) && extensions@.contains(m) && !region@.contains(m)
                && v@[j].0@.to_set() == region@.to_set().insert(m)
                && (*cost).ensures((m,), (v@[j].1 - curr_cost) as isize),
        forall|m: Node| #[trigger] neighbor_set(region@).contains(m) ==> child_listed(v@, region@, m, key_set(tried@), extensions@),
{
    let mut v: Vec<WithCost<Region>> = Vec::new();
    let nodes = region.nodes();
    let ghost ext = extensions@;
    proof {
        lemma_len_within(region@, ext);
    }
    let mut i: usize = 0;
    while i < nodes.len()
        invariant
            i <= nodes.len(),
            nodes@ == region@,
            region.wf(),
            extensions.wf(),
            ext == extensions@,
            task_ok((region@, curr_cost as int), base, ext),
            region@.len() <= ext.len(),
            cover_inputs(ext, ext, 1),
            is_key_set(tried@),
            forall|n: Node| (*cost).requires((n,)),
            forall|n: Node, c: isize| (*cost).ensures((n,), c) ==> -cost_bound() <= c <= cost_bound(),
            forall|j: int| 0 <= j < v@.len() ==> #[trigger] task_ok(item(v@[j]), base, ext),
            forall|j: int| 0 <= j < v@.len() ==> (#[trigger] v@[j]).0.wf() && v@[j].0@.len() == region@.len() + 1
                && exists|m: Node| #![trigger (*cost).ensures((m,), (v@[j].1 - curr_cost) as isize)]
                    neighbor_set(region@).contains(m) && ext.contains(m) && !region@.contains(m)
                    && v@[j].0@.to_set() == region@.to_set().insert(m)
                    && (*cost).ensures((m,), (v@[j].1 - curr_cost) as isize),
            forall|a: int, kk: int| 0 <= a < i && 0 <= kk < 6 ==> #[trigger] child_listed(v@, region@, spec_neighbors(region@[a])[kk], key_set(tried@), ext),
        decreases nodes.len() - i,
    {
        let n = nodes[i];
        proof {
            assert(region@.to_set().contains(n));
            assert(ext.to_set().contains(n));
            let a = choose|a: int| 0 <= a < ext.len() && ext[a] == n;
            assert(node_in_bounds(ext[a]));
        }
        let nbrs = neighbors(&n);
        let mut k: usize = 0;
        while k < 6
            invariant
                k <= 6,
                i < nodes.len(),
                nodes@ == region@,
                n == region@[i as int],
                nbrs@ == spec_neighbors(n),
                region.wf(),
                extensions.wf(),
                ext == extensions@,
                task_ok((region@, curr_cost as int), base, ext),
                region@.len() <= ext.len(),
                cover_inputs(ext, ext, 1),
                is_key_set(tried@),
                forall|n: Node| (*cost).requires((n,)),
                forall|n: Node, c: isize| (*cost).ensures((n,), c) ==> -cost_bound() <= c <= cost_bound(),
                forall|j: int| 0 <= j < v@.len() ==> #[trigger] task_ok(item(v@[j]), base, ext),
                forall|j: int| 0 <= j < v@.len() ==> (#[trigger] v@[j]).0.wf() && v@[j].0@.len() == region@.len() + 1
                    && exists|m: Node| #![trigger (*cost).ensures((m,), (v@[j].1 - curr_cost) as isize)]
                        neighbor_set(region@).contains(m) && ext.contains(m) && !region@.contains(m)
                        && v@[j].0@.to_set() == region@.to_set().insert(m)
                        && (*cost).ensures((m,), (v@[j].1 - curr_cost) as isize),
                forall|a: int, kk: int| 0 <= a < i && 0 <= kk < 6 ==> #[trigger] child_listed(v@, region@, spec_neighbors(region@[a])[kk], key_set(tried@), ext),
                forall|kk: int| 0 <= kk < k ==> #[trigger] child_listed(v@, region@, spec_neighbors(region@[i as int])[kk], key_set(tried@), ext),
            decreases 6 - k,
        {
            let m = nbrs[k];
            let ghost v0 = v@;
            let ghost mut newv: Seq<Node> = Seq::empty();
            let ghost mut pushed = false;
            if extensions.contains(&m) && !region.contains(&m) {
                let mut new = region.copy();
                new.insert(m);
                proof {
                    newv = new@;
                    assert forall|g: Seq<Node>| #[trigger] grows_by(region@, m, g, ext) implies g == newv by {
                        crate::sorting::lemma_strictly_sorted_nodes_unique(g, newv);
                    }
                }
                if !contains_key(tried, &new) {
                    let c = cost(m);
                    proof {
                        assert(neighbor_set(region@).contains(m)) by {
                            assert(spec_neighbors(region@[i as int])[k as int] == m);
                        }
                        let g = new@;
                        assert(g.to_set() == region@.to_set().insert(m));
                        assert(g.to_set().subset_of(ext.to_set())) by {
                            assert forall|x: Node| g.to_set().contains(x) implies ext.to_set().contains(x) by {
                                if x != m {
                                    assert(region@.to_set().contains(x));
                                }
                            }
                        }
                        assert(base.to_set().subset_of(g.to_set())) by {
                            assert forall|x: Node| base.to_set().contains(x) implies g.to_set().contains(x) by {
                                assert(region@.to_set().contains(x));
                            }
                        }
                        crate::reach::lemma_strict_no_duplicates(g);
                        lemma_len_within(g, ext);
                        assert(region@.len() + 1 <= 128);
                        assert((region@.len() + 1) * cost_bound() <= 128 * cost_bound()) by (nonlinear_arith)
                            requires
                                region@.len() + 1 <= 128,
                                cost_bound() >= 0,
                        ;
                        assert(128 * cost_bound() <= isize::MAX) by (nonlinear_arith)
                            requires
                                cost_bound() == isize::MAX as int / 128,
                                isize::MAX > 0,
                        ;
                        assert((region@.len() + 1) * cost_bound() == region@.len() * cost_bound() + cost_bound()) by (nonlinear_arith);
                    }
                    let task = WithCost(new, curr_cost + c);
                    let ghost old_v = v@;
                    v.push(task);
                    proof {
                        pushed = true;
                        assert forall|j: int| 0 <= j < v@.len() implies #[trigger] task_ok(item(v@[j]), base, ext) by {
                            if j < old_v.len() {
                                assert(v@[j] == old_v[j]);
                            }
                        }
                        assert forall|j: int| 0 <= j < v@.len() implies (#[trigger] v@[j]).0.wf() && v@[j].0@.len() == region@.len() + 1
                            && exists|m: Node| #![trigger (*cost).ensures((m,), (v@[j].1 - curr_cost) as isize)]
                                neighbor_set(region@).contains(m) && ext.contains(m) && !region@.contains(m)
                                && v@[j].0@.to_set() == region@.to_set().insert(m)
                                && (*cost).ensures((m,), (v@[j].1 - curr_cost) as isize) by {
                            if j < old_v.len() {
                                assert(v@[j] == old_v[j]);
                            } else {
                                assert((v@[j].1 - curr_cost) as isize == c);
                            }
                        }
                    }
                }
            }
            proof {
                if !pushed {
                    assert(v@ == v0);
                }
                assert forall|a: int, kk: int| 0 <= a < i && 0 <= kk < 6 implies #[trigger] child_listed(v@, region@, spec_neighbors(region@[a])[kk], key_set(tried@), ext) by {
                    lemma_listed_mono(v0, v@, region@, spec_neighbors(region@[a])[kk], key_set(tried@), ext);
                }
                assert forall|kk: int| 0 <= kk < k + 1 implies #[trigger] child_listed(v@, region@, spec_neighbors(region@[i as int])[kk], key_set(tried@), ext) by {
                    if kk < k {
                        lemma_listed_mono(v0, v@, region@, spec_neighbors(region@[i as int])[kk], key_set(tried@), ext);
                    } else {
                        assert(spec_neighbors(region@[i as int])[kk] == m);
                        assert forall|g: Seq<Node>| #[trigger] grows_by(region@, m, g, ext) && !key_set(tried@).contains(g)
                            implies exists|j: int| 0 <= j < v@.len() && (#[trigger] v@[j]).0@ == g by {
                            if pushed {
                                assert(v@[v@.len() - 1].0@ == g);
                            }
                        }
                    }
                }
            }
            k = k + 1;
        }
        i = i + 1;
    }
    proof {
        assert forall|m: Node| #[trigger] neighbor_set(region@).contains(m) implies child_listed(v@, region@, m, key_set(tried@), extensions@) by {
            let (a, kk) = choose|a: int, kk: int| 0 <= a < region@.len() && 0 <= kk < 6 && #[trigger] spec_neighbors(region@[a])[kk] == m;
            assert(child_listed(v@, region@, spec_neighbors(region@[a])[kk], key_set(tried@), ext));
        }
    }
    v
}

proof fn lemma_listed_mono(v0: Seq<WithCost<Region>>, v1: Seq<WithCost<Region>>, t: Seq<Node>, m: Node, tried: Set<Seq<Node>>, ext: Seq<Node>)
    requires
        child_listed(v0, t, m, tried, ext),
        v0.len() <= v1.len(),
        forall|j: int| 0 <= j < v0.len() ==> v1[j] == v0[j],
    ensures
        child_listed(v1, t, m, tried, ext),
{
    assert forall|g: Seq<Node>| #[trigger] grows_by(t, m, g, ext) && !tried.contains(g) implies exists|j: int| 0 <= j < v1.len() && (#[trigger] v1[j]).0@ == g by {
        let j = choose|j: int| 0 <= j < v0.len() && (#[trigger] v0[j]).0@ == g;
        assert(v1[j] == v0[j]);
    }
}

/// Searches for a region `F` with `base ⊆ F ⊆ extensions` every potential
/// cover of which, by tiles of size `tile_size` within `allowed_in_covers`,
/// is happy: its metagraph reaches, in each connected component, a
/// completion of `partial_tiling`.  Regions are tried in order of their
/// cost, the sum of `cost` over the nodes added to `base`, each region
/// growing one tried before by a node next to it.  A region with no
/// potential cover has no cover that is not happy, and is taken.  Covers
/// found not happy are kept as counterexamples to refute later regions, and
/// happy covers are kept in a cache.
pub fn search_happy_cover<F: Fn(Node) -> isize>(
    base: Graph,
    extensions: &Graph,
    allowed_in_covers: &Graph,
    partial_tiling: &BTreeMap<Node, Color>,
    tile_size: usize,
    cost: F,
    exact_cover_check: bool,
) -> (r: Option<Graph>)
    requires
        base.wf(),
        extensions.wf(),
        allowed_in_covers.wf(),
        strictly_sorted_nodes(base@),
        base@.len() > 0,
        base@.to_set().subset_of(extensions@.to_set()),
        cover_inputs(extensions@, allowed_in_covers@, tile_size as nat),
        room_for_tiles(allowed_in_covers@, tile_size as nat),
        diffs_fit(allowed_in_covers@),
        forall|n: Node| #[trigger] partial_tiling@.contains_key(n) ==> partial_tile(partial_tiling@, partial_tiling@[n]).len() == tile_size,
        forall|n: Node| cost.requires((n,)),
        forall|n: Node, c: isize| cost.ensures((n,), c) ==> -cost_bound() <= c <= cost_bound(),
    ensures
        r matches Some(g) ==> g.wf() && candidate(g@, base@, extensions@) && grown(base@, extensions@, g@)
            && all_covers_happy(allowed_in_covers@, g@, tile_size as nat, partial_tiles(partial_tiling@)),
        r is None ==> forall|n: nat, g: Seq<Node>| #[trigger] grown_from(base@, extensions@, n).contains(g)
            ==> refuted_region(allowed_in_covers@, base@, extensions@, tile_size as nat, partial_tiles(partial_tiling@), exact_cover_check, g),
{
    let ghost u = allowed_in_covers@;
    let ghost k = tile_size as nat;
    let ghost ext = extensions@;
    let ghost b = base@;
    let tiles = partial_tile_set(partial_tiling, tile_size);
    let ghost ts = tile_sets(tiles@);
    let mut counterexamples: Vec<Region> = Vec::new();
    let mut tried: Vec<Region> = Vec::new();
    let base_region = base.into_region();
    let mut start: Vec<WithCost<Region>> = Vec::new();
    start.push(WithCost(base_region, 0));
    let mut worklist = Worklist::new(start, 1);
    let mut cache = new_cache(100_000_000);
    proof {
        assert(start@.map_values(|w: WithCost<Region>| item(w)) =~= seq![item(start@[0])]);
        assert(candidate(b, b, ext));
        assert(item(start@[0]) == (b, 0int));
        assert forall|x: (Seq<Node>, int)| #[trigger] worklist.items().count(x) > 0 implies task_ok(x, b, ext) by {
            assert(seq![item(start@[0])].contains(x));
        }
        assert(seq![(b, 0int)].to_multiset() =~= Multiset::singleton((b, 0int))) by {
            assert(seq![(b, 0int)] == Seq::<(Seq<Node>, int)>::empty().push((b, 0int)));
        }
        assert(key_set(tried@) =~= Set::<Seq<Node>>::empty());
        assert(grown_from(b, ext, 0).contains(b));
        assert forall|x: (Seq<Node>, int)| #[trigger] worklist.items().count(x) > 0 implies grown(b, ext, x.0) by {
            assert(seq![item(start@[0])].contains(x));
            assert(grown_from(b, ext, 0).contains(x.0));
        }
        crate::reach::lemma_strict_no_duplicates(ext);
        assert forall|x: Node| ext.to_set().contains(x) implies u.to_set().contains(x) by {
            let a = choose|a: int| 0 <= a < ext.len() && ext[a] == x;
            assert(u.contains(ext[a]));
        }
        lemma_len_within(ext, u);
        assert(is_key_set(tried@)) by {
            assert(views(tried@) =~= Seq::<Seq<Node>>::empty());
        }
        assert(is_key_set(counterexamples@)) by {
            assert(views(counterexamples@) =~= Seq::<Seq<Node>>::empty());
        }
    }
    loop
        invariant
            u == allowed_in_covers@,
            k == tile_size as nat,
            ext == extensions@,
            b == base@,
            b.len() > 0,
            ext.len() <= 128,
            ts == tile_sets(tiles@),
            ts == partial_tiles(partial_tiling@),
            forall|j: int| 0 <= j < tiles@.len() ==> (#[trigger] tiles@[j])@.len() > 0,
            extensions.wf(),
            allowed_in_covers.wf(),
            cover_inputs(ext, u, k),
            room_for_tiles(u, k),
            diffs_fit(u),
            forall|n: Node| cost.requires((n,)),
            forall|n: Node, c: isize| cost.ensures((n,), c) ==> -cost_bound() <= c <= cost_bound(),
            worklist.wf(),
            !worklist.is_over(),
            worklist.waiting_count() == 0,
            worklist.worker_count() == 1,
            forall|x: (Seq<Node>, int)| #[trigger] worklist.items().count(x) > 0 ==> task_ok(x, b, ext),
            is_key_set(tried@),
            forall|t: Seq<Node>| #[trigger] key_set(tried@).contains(t) ==> candidate(t, b, ext),
            is_key_set(counterexamples@),
            counterexamples_bad(counterexamples@, k, ts),
            cache_good(cached_keys(cache), u, k, ts),
            key_set(tried@).len() == 0 ==> worklist.items() == Multiset::singleton((b, 0int)),
            key_set(tried@).len() > 0 ==> key_set(tried@).contains(b),
            forall|t: Seq<Node>| #[trigger] key_set(tried@).contains(t) ==> refuted_region(u, b, ext, k, ts, exact_cover_check, t) && grown(b, ext, t),
            forall|x: (Seq<Node>, int)| #[trigger] worklist.items().count(x) > 0 ==> grown(b, ext, x.0),
            forall|i: int| 0 <= i < counterexamples@.len() ==> exists|c: u128, g: Seq<Node>| #[trigger] potential_covers(u, g, k).contains(c)
                && grown(b, ext, g) && decode(c, u) == (#[trigger] counterexamples@[i])@,
            growth_covered(key_set(tried@), worklist.items(), ext),
        decreases u128_count() - key_set(tried@).len(),
    {
        let ghost items0 = worklist.items();
        let ghost tried0 = key_set(tried@);
        proof {
            lemma_tried_bound(tried0, b, ext, u, k);
        }
        match worklist.pop(&mut tried) {
            PopStep::Candidate(task) => {
                let ghost x = item(task);
                proof {
                    let d = choose|d: Multiset<(Seq<Node>, int)>| #[trigger] worklist.items().add(d) == items0
                        && d.count(x) == 1
                        && forall|y: (Seq<Node>, int)| #[trigger] d.count(y) > 0 && y != x ==> tried0.contains(y.0);
                    assert(items0.count(x) > 0);
                    assert(task_ok(x, b, ext));
                    assert forall|y: (Seq<Node>, int)| #[trigger] worklist.items().count(y) > 0 implies task_ok(y, b, ext) by {
                        assert(items0.count(y) > 0);
                    }
                    assert forall|y: (Seq<Node>, int)| #[trigger] worklist.items().count(y) > 0 implies grown(b, ext, y.0) by {
                        assert(items0.count(y) > 0);
                    }
                    assert(grown(b, ext, x.0));
                    assert forall|t: Seq<Node>| #[trigger] key_set(tried@).contains(t) implies candidate(t, b, ext) by {
                        if t != x.0 {
                            assert(tried0.contains(t));
                        }
                    }
                    lemma_tried_bound(key_set(tried@), b, ext, u, k);
                    assert forall|t: Seq<Node>, m: Node, g: Seq<Node>| #[trigger] tried0.contains(t) && #[trigger] grows_by(t, m, g, ext)
                        implies key_set(tried@).contains(g) || exists|c: int| #[trigger] worklist.items().count((g, c)) > 0 by {
                        if !tried0.contains(g) {
                            let c = choose|c: int| #[trigger] items0.count((g, c)) > 0;
                            if worklist.items().count((g, c)) == 0 {
                                assert(d.count((g, c)) > 0);
                            }
                        }
                    }
                }
                let ghost first = tried0.len() == 0;
                proof {
                    if first {
                        assert(Multiset::singleton((b, 0int)).count(x) > 0);
                        assert(x == (b, 0int));
                    }
                }
                let WithCost(region, curr_cost) = task;
                let graph = Graph::from(region.copy());
                proof {
                    assert(candidate(graph@, b, ext));
                    crate::sorting::lemma_strict_implies_sorted(graph@);
                    assert(cover_inputs(graph@, u, k)) by {
                        assert forall|i: int| 0 <= i < graph@.len() implies u.contains(#[trigger] graph@[i]) && has_room(graph@[i], k) by {
                            assert(graph@.to_set().contains(graph@[i]));
                            assert(ext.to_set().contains(graph@[i]));
                            let a = choose|a: int| 0 <= a < ext.len() && ext[a] == graph@[i];
                            assert(u.contains(ext[a]));
                        }
                        let x0 = b[0];
                        assert(b.to_set().contains(x0));
                        assert(graph@.to_set().contains(x0));
                    }
                }
                match check_graph(&graph, allowed_in_covers, tile_size, &tiles, &counterexamples, exact_cover_check, &mut cache) {
                    Ok(()) => {
                        worklist.done();
                        return Some(graph);
                    },
                    Err(cex) => {
                        let ghost items_mid = worklist.items();
                        proof {
                            if first {
                                assert(graph@ == b);
                            }
                            assert(key_set(tried@).contains(region@));
                            assert(cover_inputs(ext, ext, 1)) by {
                                assert forall|i: int| 0 <= i < ext.len() implies ext.contains(#[trigger] ext[i]) && has_room(ext[i], 1) by {
                                    assert(has_room(ext[i], k));
                                }
                                assert forall|i: int| 0 <= i < ext.len() implies crate::node::node_in_bounds(#[trigger] ext[i]) by {
                                    assert(has_room(ext[i], k));
                                }
                                assert(crate::sorting::strictly_sorted_nodes(ext));
                            }
                        }
                        let new_graphs = grow(&region, curr_cost, Ghost(b), extensions, &tried, &cost);
                        let ghost items1 = worklist.items();
                        worklist.push_all(new_graphs);
                        proof {
                            let gs = new_graphs@.map_values(|w: WithCost<Region>| item(w));
                            assert forall|y: (Seq<Node>, int)| #[trigger] worklist.items().count(y) > 0 implies task_ok(y, b, ext) by {
                                if items1.count(y) == 0 {
                                    assert(gs.to_multiset().count(y) > 0);
                                    assert(gs.contains(y));
                                    let j = choose|j: int| 0 <= j < gs.len() && gs[j] == y;
                                    assert(task_ok(item(new_graphs@[j]), b, ext));
                                }
                            }
                            assert forall|y: (Seq<Node>, int)| #[trigger] worklist.items().count(y) > 0 implies grown(b, ext, y.0) by {
                                if items1.count(y) == 0 {
                                    assert(gs.to_multiset().count(y) > 0);
                                    assert(gs.contains(y));
                                    let j = choose|j: int| 0 <= j < gs.len() && gs[j] == y;
                                    let w = new_graphs@[j];
                                    assert(task_ok(item(w), b, ext));
                                    let m = choose|m: Node| #![trigger cost.ensures((m,), (w.1 - curr_cost) as isize)]
                                        neighbor_set(region@).contains(m) && ext.contains(m) && !region@.contains(m)
                                        && w.0@.to_set() == region@.to_set().insert(m)
                                        && cost.ensures((m,), (w.1 - curr_cost) as isize);
                                    assert(grows_by(region@, m, w.0@, ext));
                                    lemma_grown_step(b, ext, region@, m, w.0@);
                                } else {
                                    assert(items_mid.count(y) > 0);
                                }
                            }
                            let tr = key_set(tried@);
                            assert forall|t: Seq<Node>, m: Node, g: Seq<Node>| #[trigger] tr.contains(t) && #[trigger] grows_by(t, m, g, ext)
                                implies tr.contains(g) || exists|c: int| #[trigger] worklist.items().count((g, c)) > 0 by {
                                if !tr.contains(g) {
                                    if t == region@ {
                                        assert(child_listed(new_graphs@, region@, m, tr, ext));
                                        let j = choose|j: int| 0 <= j < new_graphs@.len() && (#[trigger] new_graphs@[j]).0@ == g;
                                        assert(gs[j] == (g, new_graphs@[j].1 as int));
                                        assert(gs.contains(gs[j]));
                                        assert(worklist.items().count((g, new_graphs@[j].1 as int)) > 0);
                                    } else {
                                        assert(tried0.contains(t));
                                        let c = choose|c: int| #[trigger] items_mid.count((g, c)) > 0;
                                        assert(worklist.items().count((g, c)) > 0);
                                    }
                                }
                            }
                        }
                        match cex {
                            Some(c) => {
                                let cr = c.to_region(allowed_in_covers);
                                let ghost cx0 = counterexamples@;
                                insert_key(&mut counterexamples, cr);
                                proof {
                                    assert forall|i: int| 0 <= i < counterexamples@.len() implies !spec_happy(#[trigger] counterexamples@[i]@, k, ts) by {
                                        if counterexamples@[i] != cr {
                                            let j = choose|j: int| 0 <= j < cx0.len() && cx0[j] == counterexamples@[i];
                                            assert(!spec_happy(cx0[j]@, k, ts));
                                        }
                                    }
                                }
                            },
                            None => {},
                        }
                    },
                }
            },
            _ => {
                proof {
                    let tr = key_set(tried@);
                    assert(tr == tried0);
                    if tr.len() == 0 {
                        assert(items0.count((b, 0int)) > 0);
                    }
                    assert forall|t: Seq<Node>, m: Node, g: Seq<Node>| #[trigger] tr.contains(t) && #[trigger] grows_by(t, m, g, ext)
                        implies tr.contains(g) by {
                        if !tr.contains(g) {
                            let c = choose|c: int| #[trigger] items0.count((g, c)) > 0;
                        }
                    }
                    assert forall|n: nat, g: Seq<Node>| #[trigger] grown_from(b, ext, n).contains(g)
                        implies refuted_region(u, b, ext, k, ts, exact_cover_check, g) by {
                        lemma_grown_within(b, ext, tr, n);
                    }
                }
                return None;
            },
        }
    }
}

/// The number of steps between two nodes of the lattice: the horizontal
/// distance, plus what the vertical distance exceeds it by.
pub open spec fn hex_distance(a: Node, b: Node) -> int {
    let dx = if a.0 >= b.0 { a.0 - b.0 } else { b.0 - a.0 };
    let dy = if a.1 >= b.1 { a.1 - b.1 } else { b.1 - a.1 };
    dx + if dy > dx { dy - dx } else { 0 }
}

/// The cost of adding `n` in a search around the partial tiling: its
/// distance to the farthest node of the partial tiling.
pub fn hex_cost(partial_tiling: &BTreeMap<Node, Color>, n: Node) -> (r: isize)
    requires
        partial_tiling@.dom().len() > 0,
    ensures
        exists|s: Node| #[trigger] partial_tiling@.contains_key(s) && r == hex_distance(n, s),
        forall|s: Node| #[trigger] partial_tiling@.contains_key(s) ==> hex_distance(n, s) <= r,
        forall|s: Node| #[trigger] partial_tiling@.contains_key(s)
            ==> n.0 - s.0 <= r && s.0 - n.0 <= r && n.1 - s.1 <= r && s.1 - n.1 <= r,
        exists|s: Node| #[trigger] partial_tiling@.contains_key(s)
            && (r == n.0 - s.0 || r == s.0 - n.0 || r == n.1 - s.1 || r == s.1 - n.1),
{
    let entries = map_entries(partial_tiling);
    let mut best: isize = 0;
    let mut i: usize = 0;
    while i < entries.len()
        invariant
            i <= entries@.len(),
            entries@.len() == partial_tiling@.dom().len(),
            forall|j: int| 0 <= j < entries@.len() ==> #[trigger] partial_tiling@.contains_key(entries@[j].0),
            forall|s: Node| #[trigger] partial_tiling@.contains_key(s) ==> exists|j: int| 0 <= j < entries@.len() && entries@[j].0 == s,
            i > 0 ==> exists|j: int| 0 <= j < i && best == hex_distance(n, #[trigger] entries@[j].0),
            forall|j: int| 0 <= j < i ==> hex_distance(n, #[trigger] entries@[j].0) <= best,
        decreases entries@.len() - i,
    {
        let s = entries[i].0;
        let dx: isize = if n.0 >= s.0 { (n.0 as isize) - (s.0 as isize) } else { (s.0 as isize) - (n.0 as isize) };
        let dy: isize = if n.1 >= s.1 { (n.1 as isize) - (s.1 as isize) } else { (s.1 as isize) - (n.1 as isize) };
        let d: isize = dx + if dy > dx { dy - dx } else { 0 };
        if i == 0 || d > best {
            best = d;
        }
        i = i + 1;
    }
    proof {
        assert(entries@.len() > 0);
        assert forall|s: Node| #[trigger] partial_tiling@.contains_key(s) implies hex_distance(n, s) <= best by {
            let j = choose|j: int| 0 <= j < entries@.len() && entries@[j].0 == s;
            assert(hex_distance(n, entries@[j].0) <= best);
        }
        let j = choose|j: int| 0 <= j < entries@.len() && best == hex_distance(n, #[trigger] entries@[j].0);
        assert(partial_tiling@.contains_key(entries@[j].0));
        lemma_cost_is_farthest_gap(partial_tiling@, n, best as int);
    }
    best
}

/// `r` is the cost of `n` around the partial tiling `pt`: the distance to
/// its farthest node.
pub open spec fn is_cost(pt: Map<Node, Color>, n: Node, r: int) -> bool {
    &&& exists|s: Node| #[trigger] pt.contains_key(s) && r == hex_distance(n, s)
    &&& forall|s: Node| #[trigger] pt.contains_key(s) ==> hex_distance(n, s) <= r
}

/// The cost of `n` is the largest gap, across or down, between `n` and a
/// node of the partial tiling: no gap exceeds it, and one equals it.
pub proof fn lemma_cost_is_farthest_gap(pt: Map<Node, Color>, n: Node, r: int)
    requires
        is_cost(pt, n, r),
    ensures
        forall|s: Node| #[trigger] pt.contains_key(s)
            ==> n.0 - s.0 <= r && s.0 - n.0 <= r && n.1 - s.1 <= r && s.1 - n.1 <= r,
        exists|s: Node| #[trigger] pt.contains_key(s)
            && (r == n.0 - s.0 || r == s.0 - n.0 || r == n.1 - s.1 || r == s.1 - n.1),
{
    assert forall|s: Node| #[trigger] pt.contains_key(s)
        implies n.0 - s.0 <= r && s.0 - n.0 <= r && n.1 - s.1 <= r && s.1 - n.1 <= r by {
        assert(hex_distance(n, s) <= r);
    }
    let s = choose|s: Node| #[trigger] pt.contains_key(s) && r == hex_distance(n, s);
    assert(r == n.0 - s.0 || r == s.0 - n.0 || r == n.1 - s.1 || r == s.1 - n.1);
}

/// The node `n` mirrored across the horizontal axis.
pub open spec fn mirrored(n: Node) -> Node {
    (n.0, (-n.1) as i8)
}

/// The partial tiling `pt` mirrored across the horizontal axis.
pub open spec fn mirrored_tiling(pt: Map<Node, Color>) -> Map<Node, Color> {
    Map::new(|k: Node| k.1 > i8::MIN && pt.contains_key(mirrored(k)), |k: Node| pt[mirrored(k)])
}

/// Mirroring a node and the partial tiling across the horizontal axis keeps
/// the cost: up and down count alike.
pub proof fn lemma_cost_mirrored(pt: Map<Node, Color>, n: Node, r: int)
    requires
        is_cost(pt, n, r),
        n.1 > i8::MIN,
        forall|s: Node| #[trigger] pt.contains_key(s) ==> s.1 > i8::MIN,
    ensures
        is_cost(mirrored_tiling(pt), mirrored(n), r),
{
    let mt = mirrored_tiling(pt);
    let mn = mirrored(n);
    let s = choose|s: Node| #[trigger] pt.contains_key(s) && r == hex_distance(n, s);
    let ms = mirrored(s);
    assert(mirrored(ms) == s);
    assert(mt.contains_key(ms));
    assert(r == hex_distance(mn, ms));
    assert forall|k: Node| #[trigger] mt.contains_key(k) implies hex_distance(mn, k) <= r by {
        assert(pt.contains_key(mirrored(k)));
        assert(hex_distance(n, mirrored(k)) <= r);
    }
}

} // verus!
