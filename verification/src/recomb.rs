//! Recombination of pairs of polyhexes: the table from each region of twice
//! the tile size to the ways of splitting it into two tiles.

use vstd::prelude::*;
use crate::node::{Node, node_lt, node_le, node_add, add_fits, spec_add, spec_sub, node_sub, sub_fits, neighbors, spec_neighbors, lemma_node_order};
use crate::region::{Region, nodes_lt, lemma_nodes_lt_order};
use crate::ordset::{KeyOrder, TotalKey, is_key_set, key_set, views, insert_key, search, lemma_sorted_index_unique};
use crate::sorting::{sorted_nodes, strictly_sorted_nodes, lemma_strict_implies_sorted, lemma_strictly_sorted_nodes_unique};
use crate::polyhex::{near, spec_regions, regions, bounded, lemma_spec_regions, all_strict};
use crate::region::neighbor_set;
use std::collections::BTreeSet;

verus! {

broadcast use {
    vstd::laws_cmp::group_laws_cmp,
    vstd::std_specs::btree::group_btree_axioms,
};

/// `r` translated by `v`.
pub open spec fn shift_seq(v: Node, r: Seq<Node>) -> Seq<Node> {
    r.map_values(|m: Node| spec_add(m, v))
}

/// Every node of `r` can be translated by `v`.
pub open spec fn shift_fits(v: Node, r: Seq<Node>) -> bool {
    forall|i: int| 0 <= i < r.len() ==> add_fits(#[trigger] r[i], v)
}

/// Shifts each node of `r` by `n`: moves the origin to the node `n`.
pub fn shift(n: Node, r: &Region) -> (s: Region)
    requires
        r.wf(),
        shift_fits(n, r@),
    ensures
        s.wf(),
        s@ == shift_seq(n, r@),
        strictly_sorted_nodes(r@) ==> strictly_sorted_nodes(s@),
{
    let nodes = r.nodes();
    let mut v: Vec<Node> = Vec::new();
    let mut i: usize = 0;
    while i < nodes.len()
        invariant
            i <= nodes@.len(),
            nodes@ == r@,
            shift_fits(n, r@),
            v@ == shift_seq(n, r@).subrange(0, i as int),
        decreases nodes@.len() - i,
    {
        v.push(node_add(nodes[i], n));
        proof {
            assert(v@ =~= shift_seq(n, r@).subrange(0, i + 1));
        }
        i = i + 1;
    }
    proof {
        assert(v@ =~= shift_seq(n, r@));
        assert forall|a: int, b: int| 0 <= a < b < v@.len() implies node_le(#[trigger] v@[a], #[trigger] v@[b]) by {
            assert(node_le(r@[a], r@[b]));
        }
        if strictly_sorted_nodes(r@) {
            assert forall|a: int, b: int| 0 <= a < b < v@.len() implies node_lt(#[trigger] v@[a], #[trigger] v@[b]) by {
                assert(node_lt(r@[a], r@[b]));
            }
        }
    }
    Region::from_sorted(v)
}

/// Lexicographic order on pairs of regions.
pub open spec fn pair_lt(a: (Seq<Node>, Seq<Node>), b: (Seq<Node>, Seq<Node>)) -> bool {
    nodes_lt(a.0, b.0) || (a.0 == b.0 && nodes_lt(a.1, b.1))
}

impl TotalKey for (Region, Region) {
    fn copy_key(&self) -> (r: Self) {
        (self.0.copy(), self.1.copy())
    }

    open spec fn key_lt(a: (Seq<Node>, Seq<Node>), b: (Seq<Node>, Seq<Node>)) -> bool {
        pair_lt(a, b)
    }

    proof fn lemma_key_order(a: (Seq<Node>, Seq<Node>), b: (Seq<Node>, Seq<Node>), c: (Seq<Node>, Seq<Node>)) {
        lemma_nodes_lt_order(a.0, b.0, c.0);
        lemma_nodes_lt_order(a.1, b.1, c.1);
        lemma_nodes_lt_order(a.0, c.0, b.0);
        lemma_nodes_lt_order(b.0, a.0, c.0);
    }

    fn order_with(&self, other: &Self) -> (r: KeyOrder) {
        match self.0.order_with(&other.0) {
            KeyOrder::Less => KeyOrder::Less,
            KeyOrder::Greater => KeyOrder::Greater,
            KeyOrder::Equal => {
                let r = self.1.order_with(&other.1);
                proof {
                    lemma_nodes_lt_order(self.0@, other.0@, self.0@);
                }
                r
            },
        }
    }
}

/// The recombination table: for each region of twice the tile size, the
/// ways of splitting it into two tiles, keys and splits in increasing order.
pub struct RecombTable {
    keys: Vec<Region>,
    splits: Vec<Vec<(Region, Region)>>,
}

/// An entry of the table: a region and a split of it.
pub type RecombEntry = (Seq<Node>, (Seq<Node>, Seq<Node>));

impl RecombTable {
    /// The keys are in increasing order, and each has a nonempty set of
    /// splits.
    pub closed spec fn wf(&self) -> bool {
        &&& is_key_set(self.keys@)
        &&& self.splits@.len() == self.keys@.len()
        &&& forall|i: int| 0 <= i < self.splits@.len() ==> is_key_set(#[trigger] self.splits@[i]@) && self.splits@[i]@.len() > 0
        &&& forall|i: int| 0 <= i < self.keys@.len() ==> (#[trigger] self.keys@[i]).wf()
        &&& forall|i: int, j: int| 0 <= i < self.splits@.len() && 0 <= j < self.splits@[i]@.len()
            ==> (#[trigger] self.splits@[i]@[j]).0.wf() && self.splits@[i]@[j].1.wf()
    }

    /// The pairs of a key and one of its splits.
    pub closed spec fn entries(&self) -> Set<RecombEntry> {
        Set::new(|e: RecombEntry| exists|i: int| 0 <= i < self.keys@.len() && #[trigger] self.keys@[i]@ == e.0
            && key_set(self.splits@[i]@).contains(e.1))
    }

    /// The keys of the table, in increasing order.
    pub closed spec fn key_seq(&self) -> Seq<Seq<Node>> {
        views(self.keys@)
    }

    /// The empty table.
    pub fn new() -> (t: RecombTable)
        ensures
            t.wf(),
            t.entries() == Set::<RecombEntry>::empty(),
    {
        let t = RecombTable { keys: Vec::new(), splits: Vec::new() };
        proof {
            assert(t.entries() =~= Set::<RecombEntry>::empty());
        }
        t
    }

    /// The keys of the table, in increasing order.
    pub fn keys(&self) -> (r: &Vec<Region>)
        ensures
            views(r@) == self.key_seq(),
    {
        &self.keys
    }

    /// Number of keys.
    pub fn len(&self) -> (r: usize)
        ensures
            r == self.key_seq().len(),
    {
        self.keys.len()
    }

    /// The key set and the entries agree: a key is there exactly when it has
    /// an entry.
    pub proof fn lemma_keys(&self)
        requires
            self.wf(),
        ensures
            forall|k: Seq<Node>| #[trigger] self.key_seq().contains(k) <==> exists|p: (Seq<Node>, Seq<Node>)| #[trigger] self.entries().contains((k, p)),
    {
        assert forall|k: Seq<Node>| #[trigger] self.key_seq().contains(k) implies exists|p: (Seq<Node>, Seq<Node>)| #[trigger] self.entries().contains((k, p)) by {
            let i = choose|i: int| 0 <= i < self.key_seq().len() && self.key_seq()[i] == k;
            assert(self.keys@[i]@ == k);
            assert(self.splits@[i]@.len() > 0);
            let p = self.splits@[i]@[0]@;
            assert(views(self.splits@[i]@)[0] == p);
            assert(self.entries().contains((k, p)));
        }
        assert forall|k: Seq<Node>| (exists|p: (Seq<Node>, Seq<Node>)| #[trigger] self.entries().contains((k, p))) implies #[trigger] self.key_seq().contains(k) by {
            let p = choose|p: (Seq<Node>, Seq<Node>)| #[trigger] self.entries().contains((k, p));
            let i = choose|i: int| 0 <= i < self.keys@.len() && #[trigger] self.keys@[i]@ == k && key_set(self.splits@[i]@).contains(p);
            assert(self.key_seq()[i] == k);
        }
    }

    /// The splits of `key`, if it is a key of the table.
    pub fn get(&self, key: &Region) -> (r: Option<&Vec<(Region, Region)>>)
        requires
            self.wf(),
        ensures
            r is Some <==> exists|p: (Seq<Node>, Seq<Node>)| #[trigger] self.entries().contains((key@, p)),
            r matches Some(v) ==> is_key_set(v@) && forall|p: (Seq<Node>, Seq<Node>)| #[trigger] key_set(v@).contains(p) == self.entries().contains((key@, p)),
            r matches Some(v) ==> forall|j: int| 0 <= j < v@.len() ==> (#[trigger] v@[j]).0.wf() && v@[j].1.wf(),
    {
        match search(&self.keys, key) {
            Ok(i) => {
                let v = &self.splits[i];
                proof {
                    assert(self.splits@[i as int]@.len() > 0);
                    let p0 = v@[0]@;
                    assert(views(v@)[0] == p0);
                    assert(self.entries().contains((key@, p0)));
                    assert forall|p: (Seq<Node>, Seq<Node>)| #[trigger] key_set(v@).contains(p) == self.entries().contains((key@, p)) by {
                        if self.entries().contains((key@, p)) {
                            let j = choose|j: int| 0 <= j < self.keys@.len() && #[trigger] self.keys@[j]@ == key@ && key_set(self.splits@[j]@).contains(p);
                            assert(views(self.keys@)[j] == key@ && views(self.keys@)[i as int] == key@);
                            lemma_sorted_index_unique::<Region>(views(self.keys@), i as int, j);
                        }
                    }
                }
                Some(v)
            },
            Err(_) => {
                proof {
                    if exists|p: (Seq<Node>, Seq<Node>)| #[trigger] self.entries().contains((key@, p)) {
                        let p = choose|p: (Seq<Node>, Seq<Node>)| #[trigger] self.entries().contains((key@, p));
                        let j = choose|j: int| 0 <= j < self.keys@.len() && #[trigger] self.keys@[j]@ == key@ && key_set(self.splits@[j]@).contains(p);
                        assert(views(self.keys@)[j] == key@);
                        assert(key_set(self.keys@).contains(key@));
                    }
                }
                None
            },
        }
    }

    /// Adds the split `pair` of `key`.
    pub fn insert(&mut self, key: Region, pair: (Region, Region))
        requires
            old(self).wf(),
            key.wf(),
            pair.0.wf(),
            pair.1.wf(),
        ensures
            final(self).wf(),
            final(self).entries() == old(self).entries().insert((key@, pair@)),
    {
        let ghost e = (key@, pair@);
        match search(&self.keys, &key) {
            Ok(i) => {
                let ghost old_splits = self.splits@;
                let mut inner = self.splits.remove(i);
                let ghost old_inner = inner@;
                insert_key(&mut inner, pair);
                self.splits.insert(i, inner);
                proof {
                    assert(self.splits@ == old_splits.update(i as int, inner));
                    assert forall|a: int, j: int| 0 <= a < self.splits@.len() && 0 <= j < self.splits@[a]@.len()
                        implies (#[trigger] self.splits@[a]@[j]).0.wf() && self.splits@[a]@[j].1.wf() by {
                        if a == i {
                            if inner@[j] != pair {
                                let l = choose|l: int| 0 <= l < old_inner.len() && old_inner[l] == inner@[j];
                                assert(old_splits[i as int]@[l] == inner@[j]);
                            }
                        }
                    }
                    assert(inner@.len() > 0) by {
                        assert(key_set(inner@).contains(pair@));
                    }
                    assert(self.entries() =~= old(self).entries().insert(e)) by {
                        assert forall|x: RecombEntry| #[trigger] self.entries().contains(x) == old(self).entries().insert(e).contains(x) by {
                            if self.entries().contains(x) {
                                let j = choose|j: int| 0 <= j < self.keys@.len() && #[trigger] self.keys@[j]@ == x.0 && key_set(self.splits@[j]@).contains(x.1);
                                if j != i {
                                    assert(old(self).entries().contains(x));
                                } else if x != e {
                                    assert(key_set(old_inner).contains(x.1));
                                    assert(old(self).entries().contains(x));
                                }
                            }
                            if old(self).entries().contains(x) {
                                let j = choose|j: int| 0 <= j < old(self).keys@.len() && #[trigger] old(self).keys@[j]@ == x.0 && key_set(old(self).splits@[j]@).contains(x.1);
                                assert(self.keys@[j]@ == x.0);
                                if j == i {
                                    assert(key_set(inner@).contains(x.1));
                                }
                            }
                            if x == e {
                                assert(self.keys@[i as int]@ == key@);
                                assert(key_set(inner@).contains(pair@));
                            }
                        }
                    }
                }
            },
            Err(i) => {
                let ghost old_keys = self.keys@;
                let ghost old_splits = self.splits@;
                let ghost kv = key@;
                let mut inner: Vec<(Region, Region)> = Vec::new();
                inner.push(pair);
                self.keys.insert(i, key);
                self.splits.insert(i, inner);
                proof {
                    assert(views(inner@) =~= seq![pair@]);
                    assert(is_key_set(inner@));
                    let s = views(self.keys@);
                    assert(s =~= views(old_keys).insert(i as int, kv));
                    assert forall|a: int, b: int| 0 <= a < b < s.len() implies Region::key_lt(#[trigger] s[a], #[trigger] s[b]) by {
                        let os = views(old_keys);
                        if b < i {
                            assert(s[a] == os[a] && s[b] == os[b]);
                        } else if b == i {
                            assert(s[a] == old_keys[a]@);
                        } else if a == i {
                            assert(s[b] == old_keys[b - 1]@);
                        } else if a < i {
                            assert(s[a] == old_keys[a]@ && s[b] == old_keys[b - 1]@);
                            Region::lemma_key_order(s[a], kv, s[b]);
                        } else {
                            assert(s[a] == os[a - 1] && s[b] == os[b - 1]);
                        }
                    }
                    assert forall|j: int| 0 <= j < self.splits@.len() implies is_key_set(#[trigger] self.splits@[j]@) && self.splits@[j]@.len() > 0 by {
                        if j < i {
                            assert(self.splits@[j] == old_splits[j]);
                        } else if j > i {
                            assert(self.splits@[j] == old_splits[j - 1]);
                        }
                    }
                    assert forall|j: int| 0 <= j < self.keys@.len() implies (#[trigger] self.keys@[j]).wf() by {
                        if j < i {
                            assert(self.keys@[j] == old_keys[j]);
                        } else if j > i {
                            assert(self.keys@[j] == old_keys[j - 1]);
                        }
                    }
                    assert forall|a: int, j: int| 0 <= a < self.splits@.len() && 0 <= j < self.splits@[a]@.len()
                        implies (#[trigger] self.splits@[a]@[j]).0.wf() && self.splits@[a]@[j].1.wf() by {
                        if a < i {
                            assert(self.splits@[a] == old_splits[a]);
                        } else if a > i {
                            assert(self.splits@[a] == old_splits[a - 1]);
                        }
                    }
                    assert(self.entries() =~= old(self).entries().insert(e)) by {
                        assert forall|x: RecombEntry| #[trigger] self.entries().contains(x) == old(self).entries().insert(e).contains(x) by {
                            if self.entries().contains(x) {
                                let j = choose|j: int| 0 <= j < self.keys@.len() && #[trigger] self.keys@[j]@ == x.0 && key_set(self.splits@[j]@).contains(x.1);
                                if j < i {
                                    assert(old_keys[j]@ == x.0 && old_splits[j] == self.splits@[j]);
                                } else if j > i {
                                    assert(old_keys[j - 1]@ == x.0 && old_splits[j - 1] == self.splits@[j]);
                                } else {
                                    assert(key_set(inner@).contains(x.1));
                                    assert(views(inner@)[0] == x.1 || x.1 == pair@);
                                }
                            }
                            if old(self).entries().contains(x) {
                                let j = choose|j: int| 0 <= j < old(self).keys@.len() && #[trigger] old(self).keys@[j]@ == x.0 && key_set(old(self).splits@[j]@).contains(x.1);
                                if j < i {
                                    assert(self.keys@[j]@ == x.0 && self.splits@[j] == old_splits[j]);
                                } else {
                                    assert(self.keys@[j + 1]@ == x.0 && self.splits@[j + 1] == old_splits[j]);
                                }
                            }
                            if x == e {
                                assert(self.keys@[i as int]@ == key@);
                                assert(views(inner@)[0] == pair@);
                                assert(key_set(self.splits@[i as int]@).contains(pair@));
                            }
                        }
                    }
                }
            },
        }
    }
}

/// The translations that move a node of `r2` onto a neighbour of a node of
/// `r1`.
pub open spec fn offsets(r1: Seq<Node>, r2: Seq<Node>) -> Set<Node> {
    Set::new(|o: Node| exists|m: Node, l: int| neighbor_set(r1).contains(m) && 0 <= l < r2.len() && o == #[trigger] spec_sub(m, r2[l]))
}

/// `e` is the recombination that translates `r2` by `o` next to `e.1.0`: the
/// translate `e.1.1` lies after the origin and misses `e.1.0`, and `e.0` is
/// their union, of `2 n` nodes.
pub open spec fn recomb_entry(n: nat, e: RecombEntry, r2: Seq<Node>, o: Node) -> bool {
    let k = e.0;
    let r1 = e.1.0;
    let s = e.1.1;
    &&& s == shift_seq(o, r2)
    &&& forall|i: int| 0 <= i < s.len() ==> !node_lt(#[trigger] s[i], (0i8, 0i8))
    &&& strictly_sorted_nodes(k)
    &&& k.to_set() == r1.to_set() + s.to_set()
    &&& k.len() == 2 * n
}

/// The recombinations of `r1` with translates of `r2` by the offsets in `os`.
pub open spec fn pair_entries(n: nat, r1: Seq<Node>, r2: Seq<Node>, os: Set<Node>) -> Set<RecombEntry> {
    Set::new(|e: RecombEntry| e.1.0 == r1 && exists|o: Node| #[trigger] os.contains(o) && recomb_entry(n, e, r2, o))
}

/// All recombinations of pairs of regions of size `n`: each region of size
/// `2 n` that is the union of a region `r1` of size `n` and a translate `s`
/// of another, with `s` placed next to `r1` and after the origin, together
/// with the split `(r1, s)`.
pub open spec fn spec_recomb(n: nat) -> Set<RecombEntry> {
    Set::new(|e: RecombEntry| exists|r2: Seq<Node>| #[trigger] spec_regions(n).contains(r2) && spec_regions(n).contains(e.1.0)
        && pair_entries(n, e.1.0, r2, offsets(e.1.0, r2)).contains(e))
}

/// Offsets met before the state `(c1, j)` of the scan of `r1`, together with
/// the offsets of the neighbour `nb` against the first `c2` nodes of `r2`.
pub open spec fn offsets_upto(r1: Seq<Node>, r2: Seq<Node>, c1: int, j: int, nb: Node, c2: int) -> Set<Node> {
    Set::new(|o: Node| exists|m: Node, l: int| 0 <= l < r2.len() && o == #[trigger] spec_sub(m, r2[l])
        && (near(r1, m, c1, j) || (m == nb && l < c2)))
}

proof fn lemma_region_fits(n: nat, r: Seq<Node>)
    requires
        1 <= n <= 20,
        bounded(r, n),
    ensures
        forall|i: int| 0 <= i < r.len() ==> crate::node::node_in_bounds(#[trigger] r[i]),
{
}

/// Adds to `t` the recombinations of `r1` with the translates of `r2`.
fn add_pair_recombs(n: usize, r1: &Region, r2: &Region, t: &mut RecombTable)
    requires
        1 <= n <= 20,
        old(t).wf(),
        r1.wf(),
        r2.wf(),
        bounded(r1@, n as nat),
        bounded(r2@, n as nat),
    ensures
        final(t).wf(),
        final(t).entries() == old(t).entries() + pair_entries(n as nat, r1@, r2@, offsets(r1@, r2@)),
{
    let cells = r1.nodes();
    let others = r2.nodes();
    let mut seen_neighbor: BTreeSet<Node> = BTreeSet::new();
    let mut seen_shift: BTreeSet<Node> = BTreeSet::new();
    let ghost nb0: Node = (0i8, 0i8);
    proof {
        assert(seen_shift@ =~= offsets_upto(r1@, r2@, 0, 0, nb0, 0)) by {
            assert forall|o: Node| !#[trigger] offsets_upto(r1@, r2@, 0, 0, nb0, 0).contains(o) by {
                if offsets_upto(r1@, r2@, 0, 0, nb0, 0).contains(o) {
                    let (m, l) = choose|m: Node, l: int| 0 <= l < r2@.len() && o == #[trigger] spec_sub(m, r2@[l])
                        && (near(r1@, m, 0, 0) || (m == nb0 && l < 0));
                    let (i, kk) = choose|i: int, kk: int| 0 <= i < r1@.len() && 0 <= kk < 6 && (i < 0 || (i == 0 && kk < 0)) && #[trigger] spec_neighbors(r1@[i])[kk] == m;
                }
            }
        }
        assert(seen_neighbor@ =~= Set::new(|m: Node| near(r1@, m, 0, 0))) by {
            assert forall|m: Node| !near(r1@, m, 0, 0) by {
                if near(r1@, m, 0, 0) {
                    let (i, kk) = choose|i: int, kk: int| 0 <= i < r1@.len() && 0 <= kk < 6 && (i < 0 || (i == 0 && kk < 0)) && #[trigger] spec_neighbors(r1@[i])[kk] == m;
                }
            }
        }
        assert(pair_entries(n as nat, r1@, r2@, seen_shift@) =~= Set::<RecombEntry>::empty());
        assert(old(t).entries() + Set::<RecombEntry>::empty() =~= old(t).entries());
    }
    let mut c1: usize = 0;
    while c1 < cells.len()
        invariant
            1 <= n <= 20,
            cells@ == r1@,
            others@ == r2@,
            r1.wf(),
            r2.wf(),
            bounded(r1@, n as nat),
            bounded(r2@, n as nat),
            c1 <= r1@.len(),
            t.wf(),
            seen_neighbor@ == Set::new(|m: Node| near(r1@, m, c1 as int, 0)),
            seen_shift@ == offsets_upto(r1@, r2@, c1 as int, 0, nb0, 0),
            t.entries() == old(t).entries() + pair_entries(n as nat, r1@, r2@, seen_shift@),
        decreases r1@.len() - c1,
    {
        proof {
            lemma_region_fits(n as nat, r1@);
        }
        let ns = neighbors(&cells[c1]);
        let mut j: usize = 0;
        proof {
            assert(offsets_upto(r1@, r2@, c1 as int, 0, nb0, 0) =~= offsets_upto(r1@, r2@, c1 as int, 0, nb0, 0));
        }
        while j < 6
            invariant
                1 <= n <= 20,
                cells@ == r1@,
                others@ == r2@,
                r1.wf(),
                r2.wf(),
                bounded(r1@, n as nat),
                bounded(r2@, n as nat),
                c1 < r1@.len(),
                j <= 6,
                ns@ == spec_neighbors(r1@[c1 as int]),
                t.wf(),
                seen_neighbor@ == Set::new(|m: Node| near(r1@, m, c1 as int, j as int)),
                seen_shift@ == offsets_upto(r1@, r2@, c1 as int, j as int, nb0, 0),
                t.entries() == old(t).entries() + pair_entries(n as nat, r1@, r2@, seen_shift@),
            decreases 6 - j,
        {
            let nb = ns[j];
            proof {
                assert(spec_neighbors(r1@[c1 as int])[j as int] == nb);
                assert(near(r1@, nb, c1 as int, j + 1));
                assert forall|m: Node| near(r1@, m, c1 as int, j + 1) == (near(r1@, m, c1 as int, j as int) || m == nb) by {
                    if near(r1@, m, c1 as int, j + 1) && !near(r1@, m, c1 as int, j as int) {
                        let (i, kk) = choose|i: int, kk: int| 0 <= i < r1@.len() && 0 <= kk < 6 && (i < c1 || (i == c1 && kk < j + 1)) && #[trigger] spec_neighbors(r1@[i])[kk] == m;
                        assert(i == c1 && kk == j);
                    }
                    if near(r1@, m, c1 as int, j as int) {
                        let (i, kk) = choose|i: int, kk: int| 0 <= i < r1@.len() && 0 <= kk < 6 && (i < c1 || (i == c1 && kk < j)) && #[trigger] spec_neighbors(r1@[i])[kk] == m;
                        assert(near(r1@, m, c1 as int, j + 1));
                    }
                }
                assert forall|o: Node| #[trigger] offsets_upto(r1@, r2@, c1 as int, j as int, nb0, 0).contains(o)
                    == offsets_upto(r1@, r2@, c1 as int, j as int, nb, 0).contains(o) by {
                    if offsets_upto(r1@, r2@, c1 as int, j as int, nb, 0).contains(o) {
                        let (m, l) = choose|m: Node, l: int| 0 <= l < r2@.len() && o == #[trigger] spec_sub(m, r2@[l])
                            && (near(r1@, m, c1 as int, j as int) || (m == nb && l < 0));
                        assert(offsets_upto(r1@, r2@, c1 as int, j as int, nb0, 0).contains(o));
                    }
                    if offsets_upto(r1@, r2@, c1 as int, j as int, nb0, 0).contains(o) {
                        let (m, l) = choose|m: Node, l: int| 0 <= l < r2@.len() && o == #[trigger] spec_sub(m, r2@[l])
                            && (near(r1@, m, c1 as int, j as int) || (m == nb0 && l < 0));
                        assert(offsets_upto(r1@, r2@, c1 as int, j as int, nb, 0).contains(o));
                    }
                }
            }
            if seen_neighbor.insert(nb) {
                let mut c2: usize = 0;
                while c2 < others.len()
                    invariant
                        1 <= n <= 20,
                        cells@ == r1@,
                        others@ == r2@,
                        r1.wf(),
                        r2.wf(),
                        bounded(r1@, n as nat),
                        bounded(r2@, n as nat),
                        c1 < r1@.len(),
                        j < 6,
                        c2 <= r2@.len(),
                        nb == spec_neighbors(r1@[c1 as int])[j as int],
                        t.wf(),
                        seen_shift@ == offsets_upto(r1@, r2@, c1 as int, j as int, nb, c2 as int),
                        t.entries() == old(t).entries() + pair_entries(n as nat, r1@, r2@, seen_shift@),
                    decreases r2@.len() - c2,
                {
                    let ghost old_seen = seen_shift@;
                    let ghost old_entries = t.entries();
                    let c = others[c2];
                    let offset = node_sub(nb, c);
                    proof {
                        assert(offsets_upto(r1@, r2@, c1 as int, j as int, nb, c2 + 1) =~= old_seen.insert(offset)) by {
                            assert forall|o: Node| #[trigger] offsets_upto(r1@, r2@, c1 as int, j as int, nb, c2 + 1).contains(o)
                                implies old_seen.insert(offset).contains(o) by {
                                let (m, l) = choose|m: Node, l: int| 0 <= l < r2@.len() && o == #[trigger] spec_sub(m, r2@[l])
                                    && (near(r1@, m, c1 as int, j as int) || (m == nb && l < c2 + 1));
                                if !(near(r1@, m, c1 as int, j as int) || (m == nb && l < c2)) {
                                    assert(l == c2);
                                } else {
                                    assert(offsets_upto(r1@, r2@, c1 as int, j as int, nb, c2 as int).contains(o));
                                }
                            }
                            assert forall|o: Node| old_seen.insert(offset).contains(o)
                                implies #[trigger] offsets_upto(r1@, r2@, c1 as int, j as int, nb, c2 + 1).contains(o) by {
                                if o == offset {
                                    assert(offset == spec_sub(nb, r2@[c2 as int]));
                                } else {
                                    let (m, l) = choose|m: Node, l: int| 0 <= l < r2@.len() && o == #[trigger] spec_sub(m, r2@[l])
                                        && (near(r1@, m, c1 as int, j as int) || (m == nb && l < c2));
                                }
                            }
                        }
                    }
                    if seen_shift.insert(offset) {
                        let ghost new_seen = seen_shift@;
                        let ghost ne = neighbor_set(r1@).contains(nb);
                        proof {
                            assert(neighbor_set(r1@).contains(nb));
                            assert(offsets(r1@, r2@).contains(offset));
                        }
                        let shifted = shift(offset, r2);
                        let mut below: bool = false;
                        let sn = shifted.nodes();
                        let mut q: usize = 0;
                        while q < sn.len()
                            invariant
                                q <= sn@.len(),
                                sn@ == shifted@,
                                below == exists|i: int| 0 <= i < q && node_lt(#[trigger] sn@[i], (0i8, 0i8)),
                            decreases sn@.len() - q,
                        {
                            if crate::node::node_less(&sn[q], &(0i8, 0i8)) {
                                below = true;
                            }
                            q = q + 1;
                        }
                        if !below {
                            let new_r = shifted.bitor(r1);
                            if new_r.len() == 2 * n {
                                let ghost e: RecombEntry = (new_r@, (r1@, shifted@));
                                let r1c = r1.copy();
                                t.insert(new_r, (r1c, shifted));
                                proof {
                                    assert(recomb_entry(n as nat, e, r2@, offset)) by {
                                        assert(new_r@.to_set() =~= r1@.to_set() + shifted@.to_set());
                                    }
                                    assert(pair_entries(n as nat, r1@, r2@, new_seen) =~= pair_entries(n as nat, r1@, r2@, old_seen).insert(e)) by {
                                        assert forall|x: RecombEntry| pair_entries(n as nat, r1@, r2@, old_seen).insert(e).contains(x)
                                            implies #[trigger] pair_entries(n as nat, r1@, r2@, new_seen).contains(x) by {
                                            if x == e {
                                                assert(new_seen.contains(offset));
                                            } else {
                                                let o = choose|o: Node| #[trigger] old_seen.contains(o) && recomb_entry(n as nat, x, r2@, o);
                                                assert(new_seen.contains(o));
                                            }
                                        }
                                        assert forall|x: RecombEntry| #[trigger] pair_entries(n as nat, r1@, r2@, new_seen).contains(x)
                                            implies pair_entries(n as nat, r1@, r2@, old_seen).insert(e).contains(x) by {
                                            let o = choose|o: Node| #[trigger] new_seen.contains(o) && recomb_entry(n as nat, x, r2@, o);
                                            if o == offset {
                                                assert(x.0.to_set() =~= new_r@.to_set());
                                                lemma_strictly_sorted_nodes_unique(x.0, new_r@);
                                            }
                                        }
                                    }
                                    assert(t.entries() =~= old(t).entries() + pair_entries(n as nat, r1@, r2@, new_seen));
                                }
                            } else {
                                proof {
                                    assert(pair_entries(n as nat, r1@, r2@, new_seen) =~= pair_entries(n as nat, r1@, r2@, old_seen)) by {
                                        assert forall|x: RecombEntry| #[trigger] pair_entries(n as nat, r1@, r2@, old_seen).contains(x)
                                            implies pair_entries(n as nat, r1@, r2@, new_seen).contains(x) by {
                                            let o = choose|o: Node| #[trigger] old_seen.contains(o) && recomb_entry(n as nat, x, r2@, o);
                                            assert(new_seen.contains(o));
                                        }
                                        assert forall|x: RecombEntry| #[trigger] pair_entries(n as nat, r1@, r2@, old_seen).contains(x)
                                            implies pair_entries(n as nat, r1@, r2@, new_seen).contains(x) by {
                                            let o = choose|o: Node| #[trigger] old_seen.contains(o) && recomb_entry(n as nat, x, r2@, o);
                                            assert(new_seen.contains(o));
                                        }
                                        assert forall|x: RecombEntry| #[trigger] pair_entries(n as nat, r1@, r2@, new_seen).contains(x)
                                            implies pair_entries(n as nat, r1@, r2@, old_seen).contains(x) by {
                                            let o = choose|o: Node| #[trigger] new_seen.contains(o) && recomb_entry(n as nat, x, r2@, o);
                                            if o == offset {
                                                assert(x.0.to_set() =~= new_r@.to_set());
                                                lemma_strictly_sorted_nodes_unique(x.0, new_r@);
                                            }
                                        }
                                    }
                                }
                            }
                        } else {
                            proof {
                                assert(pair_entries(n as nat, r1@, r2@, new_seen) =~= pair_entries(n as nat, r1@, r2@, old_seen)) by {
                                        assert forall|x: RecombEntry| #[trigger] pair_entries(n as nat, r1@, r2@, old_seen).contains(x)
                                            implies pair_entries(n as nat, r1@, r2@, new_seen).contains(x) by {
                                            let o = choose|o: Node| #[trigger] old_seen.contains(o) && recomb_entry(n as nat, x, r2@, o);
                                            assert(new_seen.contains(o));
                                        }
                                    assert forall|x: RecombEntry| #[trigger] pair_entries(n as nat, r1@, r2@, new_seen).contains(x)
                                        implies pair_entries(n as nat, r1@, r2@, old_seen).contains(x) by {
                                        let o = choose|o: Node| #[trigger] new_seen.contains(o) && recomb_entry(n as nat, x, r2@, o);
                                        if o == offset {
                                            let i = choose|i: int| 0 <= i < sn@.len() && node_lt(#[trigger] sn@[i], (0i8, 0i8));
                                            assert(x.1.1[i] == sn@[i]);
                                        }
                                    }
                                }
                            }
                        }
                    } else {
                        proof {
                            assert(old_seen.insert(offset) =~= old_seen);
                        }
                    }
                    c2 = c2 + 1;
                }
                proof {
                    assert(seen_shift@ =~= offsets_upto(r1@, r2@, c1 as int, j + 1, nb0, 0)) by {
                        assert forall|o: Node| #[trigger] offsets_upto(r1@, r2@, c1 as int, j as int, nb, r2@.len() as int).contains(o)
                            == offsets_upto(r1@, r2@, c1 as int, j + 1, nb0, 0).contains(o) by {
                            if offsets_upto(r1@, r2@, c1 as int, j as int, nb, r2@.len() as int).contains(o) {
                                let (m, l) = choose|m: Node, l: int| 0 <= l < r2@.len() && o == #[trigger] spec_sub(m, r2@[l])
                                    && (near(r1@, m, c1 as int, j as int) || (m == nb && l < r2@.len()));
                                assert(near(r1@, m, c1 as int, j + 1));
                            }
                            if offsets_upto(r1@, r2@, c1 as int, j + 1, nb0, 0).contains(o) {
                                let (m, l) = choose|m: Node, l: int| 0 <= l < r2@.len() && o == #[trigger] spec_sub(m, r2@[l])
                                    && (near(r1@, m, c1 as int, j + 1) || (m == nb0 && l < 0));
                                assert(near(r1@, m, c1 as int, j as int) || m == nb);
                            }
                        }
                    }
                }
            } else {
                proof {
                    assert(seen_shift@ =~= offsets_upto(r1@, r2@, c1 as int, j + 1, nb0, 0)) by {
                        assert forall|o: Node| #[trigger] offsets_upto(r1@, r2@, c1 as int, j + 1, nb0, 0).contains(o)
                            == offsets_upto(r1@, r2@, c1 as int, j as int, nb0, 0).contains(o) by {
                            if offsets_upto(r1@, r2@, c1 as int, j + 1, nb0, 0).contains(o) {
                                let (m, l) = choose|m: Node, l: int| 0 <= l < r2@.len() && o == #[trigger] spec_sub(m, r2@[l])
                                    && (near(r1@, m, c1 as int, j + 1) || (m == nb0 && l < 0));
                                assert(near(r1@, m, c1 as int, j as int));
                            }
                            if offsets_upto(r1@, r2@, c1 as int, j as int, nb0, 0).contains(o) {
                                let (m, l) = choose|m: Node, l: int| 0 <= l < r2@.len() && o == #[trigger] spec_sub(m, r2@[l])
                                    && (near(r1@, m, c1 as int, j as int) || (m == nb0 && l < 0));
                                assert(near(r1@, m, c1 as int, j + 1));
                            }
                        }
                    }
                }
            }
            proof {
                assert(seen_neighbor@ =~= Set::new(|m: Node| near(r1@, m, c1 as int, j + 1)));
            }
            j = j + 1;
        }
        proof {
            assert forall|m: Node| near(r1@, m, c1 + 1, 0) == near(r1@, m, c1 as int, 6) by {
                if near(r1@, m, c1 + 1, 0) {
                    let (i, kk) = choose|i: int, kk: int| 0 <= i < r1@.len() && 0 <= kk < 6 && (i < c1 + 1 || (i == c1 + 1 && kk < 0)) && #[trigger] spec_neighbors(r1@[i])[kk] == m;
                    assert(near(r1@, m, c1 as int, 6));
                }
                if near(r1@, m, c1 as int, 6) {
                    let (i, kk) = choose|i: int, kk: int| 0 <= i < r1@.len() && 0 <= kk < 6 && (i < c1 || (i == c1 && kk < 6)) && #[trigger] spec_neighbors(r1@[i])[kk] == m;
                    assert(near(r1@, m, c1 + 1, 0));
                }
            }
            assert(seen_neighbor@ =~= Set::new(|m: Node| near(r1@, m, c1 + 1, 0)));
            assert(seen_shift@ =~= offsets_upto(r1@, r2@, c1 + 1, 0, nb0, 0)) by {
                assert forall|o: Node| #[trigger] offsets_upto(r1@, r2@, c1 + 1, 0, nb0, 0).contains(o)
                    == offsets_upto(r1@, r2@, c1 as int, 6, nb0, 0).contains(o) by {
                    if offsets_upto(r1@, r2@, c1 + 1, 0, nb0, 0).contains(o) {
                        let (m, l) = choose|m: Node, l: int| 0 <= l < r2@.len() && o == #[trigger] spec_sub(m, r2@[l])
                            && (near(r1@, m, c1 + 1, 0) || (m == nb0 && l < 0));
                    }
                    if offsets_upto(r1@, r2@, c1 as int, 6, nb0, 0).contains(o) {
                        let (m, l) = choose|m: Node, l: int| 0 <= l < r2@.len() && o == #[trigger] spec_sub(m, r2@[l])
                            && (near(r1@, m, c1 as int, 6) || (m == nb0 && l < 0));
                    }
                }
            }
        }
        c1 = c1 + 1;
    }
    proof {
        assert(seen_shift@ =~= offsets(r1@, r2@)) by {
            assert forall|o: Node| #[trigger] offsets(r1@, r2@).contains(o) == offsets_upto(r1@, r2@, r1@.len() as int, 0, nb0, 0).contains(o) by {
                if offsets(r1@, r2@).contains(o) {
                    let (m, l) = choose|m: Node, l: int| neighbor_set(r1@).contains(m) && 0 <= l < r2@.len() && o == #[trigger] spec_sub(m, r2@[l]);
                    let (i, kk) = choose|i: int, kk: int| 0 <= i < r1@.len() && 0 <= kk < 6 && #[trigger] spec_neighbors(r1@[i])[kk] == m;
                    assert(near(r1@, m, r1@.len() as int, 0));
                }
                if offsets_upto(r1@, r2@, r1@.len() as int, 0, nb0, 0).contains(o) {
                    let (m, l) = choose|m: Node, l: int| 0 <= l < r2@.len() && o == #[trigger] spec_sub(m, r2@[l])
                        && (near(r1@, m, r1@.len() as int, 0) || (m == nb0 && l < 0));
                    let (i, kk) = choose|i: int, kk: int| 0 <= i < r1@.len() && 0 <= kk < 6 && (i < r1@.len() || (i == r1@.len() && kk < 0)) && #[trigger] spec_neighbors(r1@[i])[kk] == m;
                    assert(neighbor_set(r1@).contains(m));
                }
            }
        }
    }
}

/// The recombinations of the pairs `(rs[a'], rs[b'])` before `(a, b)` in
/// lexicographic order.
pub open spec fn recombs_upto(n: nat, rs: Seq<Seq<Node>>, a: int, b: int) -> Set<RecombEntry> {
    Set::new(|e: RecombEntry| exists|a2: int, b2: int| 0 <= a2 < rs.len() && 0 <= b2 < rs.len() && (a2 < a || (a2 == a && b2 < b))
        && #[trigger] pair_entries(n, rs[a2], rs[b2], offsets(rs[a2], rs[b2])).contains(e))
}

/// The recombination table of the regions of size `n`: maps each region of
/// size `2 n` to the ways of splitting it into two regions of size `n`, the
/// first starting at the origin and the second placed next to it after the
/// origin.
pub fn recomb(n: usize) -> (t: RecombTable)
    requires
        1 <= n <= 20,
    ensures
        t.wf(),
        t.entries() == spec_recomb(n as nat),
{
    let rs = regions(n);
    let ghost vs = views(rs@);
    proof {
        lemma_spec_regions(n as nat);
    }
    let mut t = RecombTable::new();
    let mut a: usize = 0;
    proof {
        assert(t.entries() =~= recombs_upto(n as nat, vs, 0, 0));
    }
    while a < rs.len()
        invariant
            1 <= n <= 20,
            vs == views(rs@),
            a <= rs@.len(),
            key_set(rs@) == spec_regions(n as nat),
            forall|j: int| 0 <= j < rs@.len() ==> (#[trigger] rs@[j]).wf(),
            forall|r: Seq<Node>| #[trigger] spec_regions(n as nat).contains(r) ==> {
                &&& strictly_sorted_nodes(r)
                &&& r.len() == n
                &&& bounded(r, n as nat)
                &&& r.contains((0i8, 0i8))
            },
            t.wf(),
            t.entries() == recombs_upto(n as nat, vs, a as int, 0),
        decreases rs@.len() - a,
    {
        let mut b: usize = 0;
        while b < rs.len()
            invariant
                1 <= n <= 20,
                vs == views(rs@),
                a < rs@.len(),
                b <= rs@.len(),
                key_set(rs@) == spec_regions(n as nat),
                forall|j: int| 0 <= j < rs@.len() ==> (#[trigger] rs@[j]).wf(),
                forall|r: Seq<Node>| #[trigger] spec_regions(n as nat).contains(r) ==> {
                    &&& strictly_sorted_nodes(r)
                    &&& r.len() == n
                    &&& bounded(r, n as nat)
                    &&& r.contains((0i8, 0i8))
                },
                t.wf(),
                t.entries() == recombs_upto(n as nat, vs, a as int, b as int),
            decreases rs@.len() - b,
        {
            proof {
                assert(vs[a as int] == rs@[a as int]@ && vs[b as int] == rs@[b as int]@);
                assert(spec_regions(n as nat).contains(vs[a as int]));
                assert(spec_regions(n as nat).contains(vs[b as int]));
            }
            let ghost before = t.entries();
            add_pair_recombs(n, &rs[a], &rs[b], &mut t);
            proof {
                assert(t.entries() =~= recombs_upto(n as nat, vs, a as int, b + 1)) by {
                    assert forall|e: RecombEntry| #[trigger] t.entries().contains(e) == recombs_upto(n as nat, vs, a as int, b + 1).contains(e) by {
                        if recombs_upto(n as nat, vs, a as int, b + 1).contains(e) {
                            let (a2, b2) = choose|a2: int, b2: int| 0 <= a2 < vs.len() && 0 <= b2 < vs.len() && (a2 < a || (a2 == a && b2 < b + 1))
                                && #[trigger] pair_entries(n as nat, vs[a2], vs[b2], offsets(vs[a2], vs[b2])).contains(e);
                            if !(a2 < a || (a2 == a && b2 < b)) {
                                assert(a2 == a && b2 == b);
                            } else {
                                assert(before.contains(e));
                            }
                        }
                        if t.entries().contains(e) && !before.contains(e) {
                            assert(pair_entries(n as nat, vs[a as int], vs[b as int], offsets(vs[a as int], vs[b as int])).contains(e));
                        }
                    }
                }
            }
            b = b + 1;
        }
        proof {
            assert(recombs_upto(n as nat, vs, a as int, rs@.len() as int) =~= recombs_upto(n as nat, vs, a + 1, 0)) by {
                assert forall|e: RecombEntry| #[trigger] recombs_upto(n as nat, vs, a as int, rs@.len() as int).contains(e)
                    == recombs_upto(n as nat, vs, a + 1, 0).contains(e) by {
                    if recombs_upto(n as nat, vs, a + 1, 0).contains(e) {
                        let (a2, b2) = choose|a2: int, b2: int| 0 <= a2 < vs.len() && 0 <= b2 < vs.len() && (a2 < a + 1 || (a2 == a + 1 && b2 < 0))
                            && #[trigger] pair_entries(n as nat, vs[a2], vs[b2], offsets(vs[a2], vs[b2])).contains(e);
                        assert(recombs_upto(n as nat, vs, a as int, rs@.len() as int).contains(e));
                    }
                    if recombs_upto(n as nat, vs, a as int, rs@.len() as int).contains(e) {
                        let (a2, b2) = choose|a2: int, b2: int| 0 <= a2 < vs.len() && 0 <= b2 < vs.len() && (a2 < a || (a2 == a && b2 < rs@.len()))
                            && #[trigger] pair_entries(n as nat, vs[a2], vs[b2], offsets(vs[a2], vs[b2])).contains(e);
                        assert(recombs_upto(n as nat, vs, a + 1, 0).contains(e));
                    }
                }
            }
        }
        a = a + 1;
    }
    proof {
        assert(t.entries() =~= spec_recomb(n as nat)) by {
            assert forall|e: RecombEntry| #[trigger] t.entries().contains(e) == spec_recomb(n as nat).contains(e) by {
                if t.entries().contains(e) {
                    let (a2, b2) = choose|a2: int, b2: int| 0 <= a2 < vs.len() && 0 <= b2 < vs.len() && (a2 < rs@.len() || (a2 == rs@.len() && b2 < 0))
                        && #[trigger] pair_entries(n as nat, vs[a2], vs[b2], offsets(vs[a2], vs[b2])).contains(e);
                    assert(key_set(rs@).contains(vs[a2]) && key_set(rs@).contains(vs[b2]));
                    assert(spec_regions(n as nat).contains(vs[b2]));
                    assert(e.1.0 == vs[a2]);
                }
                if spec_recomb(n as nat).contains(e) {
                    let r2 = choose|r2: Seq<Node>| #[trigger] spec_regions(n as nat).contains(r2) && spec_regions(n as nat).contains(e.1.0)
                        && pair_entries(n as nat, e.1.0, r2, offsets(e.1.0, r2)).contains(e);
                    assert(key_set(rs@).contains(r2) && key_set(rs@).contains(e.1.0));
                    let a2 = choose|a2: int| 0 <= a2 < vs.len() && vs[a2] == e.1.0;
                    let b2 = choose|b2: int| 0 <= b2 < vs.len() && vs[b2] == r2;
                    assert(pair_entries(n as nat, vs[a2], vs[b2], offsets(vs[a2], vs[b2])).contains(e));
                    assert(recombs_upto(n as nat, vs, rs@.len() as int, 0).contains(e));
                }
            }
        }
    }
    t
}

} // verus!
