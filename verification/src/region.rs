//! Regions: finite sets of lattice nodes, kept sorted.

use vstd::prelude::*;
use std::collections::BTreeSet;
use crate::node::{Node, node_in_bounds, node_le, node_lt, node_less, neighbors, spec_neighbors, lemma_node_order};
use crate::ordset::{KeyOrder, TotalKey};
use crate::sorting::{
    sorted_nodes, strictly_sorted_nodes, insert_sorted, sort_nodes, dedup_sorted, copy_nodes,
    vec_contains, lemma_strict_implies_sorted,
};

verus! {

broadcast use {
    vstd::seq_lib::group_to_multiset_ensures,
    vstd::laws_cmp::group_laws_cmp,
    vstd::std_specs::btree::group_btree_axioms,
};

/// A region: a set of lattice nodes, held in increasing lexicographic order.
///
/// A region built from a vector that repeats a node holds that node as many
/// times; the regions built by this crate's algorithms never do.
#[derive(PartialEq, Eq, PartialOrd, Ord, Hash, Clone, Debug)]
pub struct Region {
    inner: Vec<Node>,
}

impl View for Region {
    type V = Seq<Node>;

    closed spec fn view(&self) -> Seq<Node> {
        self.inner@
    }
}

/// The set of the neighbours of the nodes of `s`.
pub open spec fn neighbor_set(s: Seq<Node>) -> Set<Node> {
    Set::new(|m: Node| exists|i: int, k: int| 0 <= i < s.len() && 0 <= k < 6 && #[trigger] spec_neighbors(s[i])[k] == m)
}

/// All nodes of `s` are far enough from the limits of `i8` for their neighbours
/// to be computed.
pub open spec fn all_in_bounds(s: Seq<Node>) -> bool {
    forall|i: int| 0 <= i < s.len() ==> node_in_bounds(#[trigger] s[i])
}

/// Lexicographic order on sequences of nodes, the order of `Vec<Node>`.
pub open spec fn nodes_lt(a: Seq<Node>, b: Seq<Node>) -> bool
    decreases a.len(),
{
    if a.len() == 0 {
        b.len() > 0
    } else if b.len() == 0 {
        false
    } else if node_lt(a[0], b[0]) {
        true
    } else if a[0] == b[0] {
        nodes_lt(a.drop_first(), b.drop_first())
    } else {
        false
    }
}

pub proof fn lemma_nodes_lt_order(a: Seq<Node>, b: Seq<Node>, c: Seq<Node>)
    ensures
        !nodes_lt(a, a),
        nodes_lt(a, b) && nodes_lt(b, c) ==> nodes_lt(a, c),
        a != b ==> nodes_lt(a, b) || nodes_lt(b, a),
    decreases a.len(),
{
    if a.len() > 0 {
        lemma_nodes_lt_order(a.drop_first(), a.drop_first(), a.drop_first());
        if b.len() > 0 && c.len() > 0 {
            lemma_node_order(a[0], b[0], c[0]);
            lemma_nodes_lt_order(a.drop_first(), b.drop_first(), c.drop_first());
        }
        if b.len() > 0 {
            lemma_node_order(a[0], b[0], a[0]);
            lemma_nodes_lt_order(a.drop_first(), b.drop_first(), b.drop_first());
            if a != b && a[0] == b[0] {
                assert(a.drop_first() != b.drop_first()) by {
                    if a.drop_first() == b.drop_first() {
                        assert(a =~= b) by {
                            assert forall|k: int| 0 <= k < a.len() implies a[k] == b[k] by {
                                if k > 0 {
                                    assert(a[k] == a.drop_first()[k - 1]);
                                    assert(b[k] == b.drop_first()[k - 1]);
                                }
                            }
                        }
                    }
                }
            }
        }
    } else {
        if b.len() == 0 {
            assert(a =~= b);
        }
    }
}

impl Region {
    /// The region is sorted.
    pub open spec fn wf(&self) -> bool {
        sorted_nodes(self@)
    }

    /// The empty region.
    pub fn new() -> (r: Region)
        ensures
            r.wf(),
            r@ == Seq::<Node>::empty(),
    {
        Region { inner: Vec::new() }
    }

    /// The region of the nodes of `inner`, sorted.
    pub fn from(inner: Vec<Node>) -> (r: Region)
        ensures
            r.wf(),
            r@.to_multiset() == inner@.to_multiset(),
            r@.to_set() == inner@.to_set(),
            r@.len() == inner@.len(),
    {
        Region { inner: sort_nodes(&inner) }
    }

    /// The region of the nodes of `inner`, which is already sorted.
    pub(crate) fn from_sorted(inner: Vec<Node>) -> (r: Region)
        requires
            sorted_nodes(inner@),
        ensures
            r.wf(),
            r@ == inner@,
    {
        Region { inner }
    }

    /// The nodes of the region, as a vector.
    pub fn into_vec(self) -> (r: Vec<Node>)
        ensures
            r@ == self@,
    {
        self.inner
    }

    /// A copy of the region.
    pub fn copy(&self) -> (r: Region)
        ensures
            r@ == self@,
    {
        Region { inner: copy_nodes(&self.inner) }
    }

    /// Whether the region holds `n`.
    pub fn contains(&self, n: &Node) -> (r: bool)
        ensures
            r == self@.contains(*n),
    {
        vec_contains(&self.inner, n)
    }

    /// The nodes of the region, in order.
    pub fn nodes(&self) -> (r: &[Node])
        ensures
            r@ == self@,
    {
        self.inner.as_slice()
    }

    /// An iterator over the nodes of the region, in order.
    pub fn iter(&self) -> (r: std::slice::Iter<'_, Node>)
        ensures
            vstd::std_specs::slice::into_iter_elts(r) == self@,
    {
        let s = self.inner.as_slice();
        proof {
            vstd::std_specs::slice::axiom_spec_slice_iter(s);
        }
        let it = s.iter();
        proof {
            assert(vstd::std_specs::iter::IteratorSpec::remaining(&it).unref() =~= s@);
        }
        it
    }

    /// Inserts `new`; returns whether it was absent.  A node already there is
    /// not inserted again.
    pub fn insert(&mut self, new: Node) -> (r: bool)
        requires
            old(self).wf(),
        ensures
            final(self).wf(),
            r == !old(self)@.contains(new),
            r ==> final(self)@.to_multiset() == old(self)@.to_multiset().insert(new),
            !r ==> final(self)@ == old(self)@,
            final(self)@.to_set() == old(self)@.to_set().insert(new),
            final(self)@.len() == old(self)@.len() + if r { 1int } else { 0int },
            strictly_sorted_nodes(old(self)@) ==> strictly_sorted_nodes(final(self)@),
    {
        if self.contains(&new) {
            proof {
                assert(old(self)@.to_set().insert(new) =~= old(self)@.to_set());
            }
            false
        } else {
            insert_sorted(&mut self.inner, new);
            proof {
                vstd::seq_lib::to_multiset_len(self@);
                vstd::seq_lib::to_multiset_len(old(self)@);
                if strictly_sorted_nodes(old(self)@) {
                    lemma_strict_implies_sorted(old(self)@);
                    lemma_sorted_no_dup_strict(self@, old(self)@, new);
                }
            }
            true
        }
    }

    /// Removes the first occurrence of `node_to_remove`; returns whether it
    /// was there.
    pub fn remove(&mut self, node_to_remove: &Node) -> (r: bool)
        requires
            old(self).wf(),
        ensures
            final(self).wf(),
            r == old(self)@.contains(*node_to_remove),
            r ==> final(self)@.to_multiset() == old(self)@.to_multiset().remove(*node_to_remove),
            r ==> final(self)@.len() == old(self)@.len() - 1,
            !r ==> final(self)@ == old(self)@,
    {
        let mut i: usize = 0;
        while i < self.inner.len()
            invariant
                i <= self.inner.len(),
                self@ == old(self)@,
                sorted_nodes(old(self)@),
                forall|j: int| 0 <= j < i ==> self@[j] != *node_to_remove,
            decreases self.inner.len() - i,
        {
            if self.inner[i].0 == node_to_remove.0 && self.inner[i].1 == node_to_remove.1 {
                let ghost s = self@;
                self.inner.remove(i);
                proof {
                    assert(self@ == s.remove(i as int));
                    vstd::seq_lib::to_multiset_remove(s, i as int);
                    assert forall|a: int, b: int| 0 <= a < b < self@.len() implies node_le(
                        #[trigger] self@[a],
                        #[trigger] self@[b],
                    ) by {
                        let a1 = if a < i { a } else { a + 1 };
                        let b1 = if b < i { b } else { b + 1 };
                        assert(self@[a] == s[a1] && self@[b] == s[b1]);
                    }
                }
                return true;
            }
            i = i + 1;
        }
        false
    }

    /// Number of nodes in the region.
    pub fn len(&self) -> (r: usize)
        ensures
            r == self@.len(),
    {
        self.inner.len()
    }

    /// Whether the region has no node.
    pub fn is_empty(&self) -> (r: bool)
        ensures
            r == (self@.len() == 0),
    {
        self.inner.len() == 0
    }

    /// The smallest node of the region, if any.
    pub fn first(&self) -> (r: Option<&Node>)
        ensures
            self@.len() == 0 ==> r is None,
            self@.len() > 0 ==> r == Some(&self@[0]),
    {
        if self.inner.len() == 0 {
            None
        } else {
            Some(&self.inner[0])
        }
    }

    /// Moves the nodes of `r2` into this region; the result holds each node
    /// of either region once, and `r2` is left empty.
    pub fn append(&mut self, r2: &mut Region)
        requires
            old(self).wf(),
        ensures
            final(self).wf(),
            strictly_sorted_nodes(final(self)@),
            final(self)@.to_set() == old(self)@.to_set() + old(r2)@.to_set(),
            final(r2)@ == Seq::<Node>::empty(),
    {
        let u = self.bitor(r2);
        self.inner = u.inner;
        r2.inner = Vec::new();
    }

    /// The union of two regions; each node occurs once.
    pub fn bitor(&self, rhs: &Region) -> (r: Region)
        requires
            self.wf(),
        ensures
            r.wf(),
            strictly_sorted_nodes(r@),
            r@.to_set() == self@.to_set() + rhs@.to_set(),
    {
        let mut v = copy_nodes(&self.inner);
        let mut i: usize = 0;
        while i < rhs.inner.len()
            invariant
                i <= rhs.inner.len(),
                sorted_nodes(v@),
                v@.to_set() == self@.to_set() + rhs@.subrange(0, i as int).to_set(),
            decreases rhs.inner.len() - i,
        {
            insert_sorted(&mut v, rhs.inner[i]);
            proof {
                assert(rhs@.subrange(0, i + 1) == rhs@.subrange(0, i as int).push(rhs@[i as int]));
                rhs@.subrange(0, i as int).lemma_push_to_set_commute(rhs@[i as int]);
                assert(v@.to_set() =~= self@.to_set() + rhs@.subrange(0, i + 1).to_set());
            }
            i = i + 1;
        }
        proof {
            assert(rhs@.subrange(0, rhs@.len() as int) == rhs@);
        }
        let d = dedup_sorted(&v);
        proof {
            lemma_strict_implies_sorted(d@);
        }
        Region { inner: d }
    }

    /// The neighbours of the nodes of this region, or `None` for the empty
    /// region.
    pub fn neighbors(&self) -> (r: Option<BTreeSet<Node>>)
        requires
            all_in_bounds(self@),
        ensures
            self@.len() == 0 ==> r is None,
            self@.len() > 0 ==> (r matches Some(s) && s@ == neighbor_set(self@)),
    {
        if self.inner.len() == 0 {
            return None;
        }
        let mut s: BTreeSet<Node> = BTreeSet::new();
        let mut i: usize = 0;
        while i < self.inner.len()
            invariant
                i <= self.inner.len(),
                all_in_bounds(self@),
                s@ == Set::new(|m: Node| exists|a: int, k: int| 0 <= a < i && 0 <= k < 6 && #[trigger] spec_neighbors(self@[a])[k] == m),
            decreases self.inner.len() - i,
        {
            let ns = neighbors(&self.inner[i]);
            let ghost before = s@;
            let mut k: usize = 0;
            while k < 6
                invariant
                    0 <= k <= 6,
                    i < self.inner.len(),
                    ns@ == spec_neighbors(self@[i as int]),
                    s@ == before + Set::new(|m: Node| exists|k2: int| 0 <= k2 < k && #[trigger] spec_neighbors(self@[i as int])[k2] == m),
                decreases 6 - k,
            {
                s.insert(ns[k]);
                proof {
                    assert(s@ =~= before + Set::new(|m: Node| exists|k2: int| 0 <= k2 < k + 1 && #[trigger] spec_neighbors(self@[i as int])[k2] == m)) by {
                        assert(spec_neighbors(self@[i as int])[k as int] == ns@[k as int]);
                    }
                }
                k = k + 1;
            }
            proof {
                assert(s@ =~= Set::new(|m: Node| exists|a: int, k: int| 0 <= a < i + 1 && 0 <= k < 6 && #[trigger] spec_neighbors(self@[a])[k] == m)) by {
                    assert forall|m: Node| #[trigger] s@.contains(m) implies (exists|a: int, k: int| 0 <= a < i + 1 && 0 <= k < 6 && #[trigger] spec_neighbors(self@[a])[k] == m) by {
                        if !before.contains(m) {
                            let k2 = choose|k2: int| 0 <= k2 < 6 && #[trigger] spec_neighbors(self@[i as int])[k2] == m;
                            assert(spec_neighbors(self@[i as int])[k2] == m);
                        }
                    }
                    assert forall|m: Node| (exists|a: int, k: int| 0 <= a < i + 1 && 0 <= k < 6 && #[trigger] spec_neighbors(self@[a])[k] == m) implies #[trigger] s@.contains(m) by {
                        let (a, k) = choose|a: int, k: int| 0 <= a < i + 1 && 0 <= k < 6 && #[trigger] spec_neighbors(self@[a])[k] == m;
                        if a < i {
                            assert(before.contains(m));
                        } else {
                            assert(spec_neighbors(self@[i as int])[k] == m);
                        }
                    }
                }
            }
            i = i + 1;
        }
        Some(s)
    }
}

/// Inserting a node that a duplicate-free sorted sequence lacks keeps it
/// strictly sorted.
proof fn lemma_sorted_no_dup_strict(s: Seq<Node>, old_s: Seq<Node>, x: Node)
    requires
        sorted_nodes(s),
        old_s.no_duplicates(),
        !old_s.contains(x),
        s.to_multiset() == old_s.to_multiset().insert(x),
    ensures
        strictly_sorted_nodes(s),
{
    assert forall|i: int, j: int| 0 <= i < j < s.len() implies node_lt(#[trigger] s[i], #[trigger] s[j]) by {
        if s[i] == s[j] {
            let v = s[i];
            assert(s.to_multiset().count(v) >= 2) by {
                let s0 = s.subrange(0, i);
                let s1 = s.subrange(i + 1, j);
                let s2 = s.subrange(j + 1, s.len() as int);
                assert(s =~= s0 + seq![v] + s1 + seq![v] + s2);
                vstd::seq_lib::lemma_multiset_commutative(s0 + seq![v] + s1 + seq![v], s2);
                vstd::seq_lib::lemma_multiset_commutative(s0 + seq![v] + s1, seq![v]);
                vstd::seq_lib::lemma_multiset_commutative(s0 + seq![v], s1);
                vstd::seq_lib::lemma_multiset_commutative(s0, seq![v]);
                assert(seq![v].to_multiset().count(v) == 1) by {
                    assert(seq![v] == Seq::<Node>::empty().push(v));
                    vstd::seq_lib::to_multiset_build(Seq::<Node>::empty(), v);
                }
            }
            old_s.lemma_multiset_has_no_duplicates();
            if v == x {
                assert(old_s.to_multiset().count(x) == 0);
            } else {
                assert(old_s.to_multiset().count(v) <= 1);
            }
        }
    }
}

impl Default for Region {
    fn default() -> (r: Region)
        ensures
            r@ == Seq::<Node>::empty(),
    {
        Region::new()
    }
}

impl TotalKey for Region {
    fn copy_key(&self) -> (r: Self) {
        self.copy()
    }

    open spec fn key_lt(a: Seq<Node>, b: Seq<Node>) -> bool {
        nodes_lt(a, b)
    }

    proof fn lemma_key_order(a: Seq<Node>, b: Seq<Node>, c: Seq<Node>) {
        lemma_nodes_lt_order(a, b, c);
    }

    fn order_with(&self, other: &Self) -> (r: KeyOrder) {
        let a = &self.inner;
        let b = &other.inner;
        let mut i: usize = 0;
        proof {
            assert(self@ == a@ && other@ == b@);
            assert(a@.skip(0) == a@);
            assert(b@.skip(0) == b@);
        }
        while i < a.len() && i < b.len()
            invariant
                i <= a.len(),
                i <= b.len(),
                a@.subrange(0, i as int) == b@.subrange(0, i as int),
                nodes_lt(a@, b@) == nodes_lt(a@.skip(i as int), b@.skip(i as int)),
                nodes_lt(b@, a@) == nodes_lt(b@.skip(i as int), a@.skip(i as int)),
                self@ == a@,
                other@ == b@,
            decreases a.len() - i,
        {
            proof {
                assert(a@.skip(i as int)[0] == a@[i as int]);
                assert(b@.skip(i as int)[0] == b@[i as int]);
            }
            if node_less(&a[i], &b[i]) {
                proof {
                    lemma_node_order(a@[i as int], b@[i as int], a@[i as int]);
                    assert(nodes_lt(a@.skip(i as int), b@.skip(i as int)));
                    assert(!nodes_lt(b@.skip(i as int), a@.skip(i as int)));
                    assert(a@[i as int] != b@[i as int]);
                }
                return KeyOrder::Less;
            }
            if node_less(&b[i], &a[i]) {
                proof {
                    lemma_node_order(a@[i as int], b@[i as int], a@[i as int]);
                    assert(!nodes_lt(a@.skip(i as int), b@.skip(i as int)));
                    assert(nodes_lt(b@.skip(i as int), a@.skip(i as int)));
                    assert(a@[i as int] != b@[i as int]);
                }
                return KeyOrder::Greater;
            }
            proof {
                lemma_node_order(a@[i as int], b@[i as int], a@[i as int]);
                assert(a@.skip(i as int).drop_first() == a@.skip(i + 1));
                assert(b@.skip(i as int).drop_first() == b@.skip(i + 1));
                assert(a@.subrange(0, i + 1) == a@.subrange(0, i as int).push(a@[i as int]));
                assert(b@.subrange(0, i + 1) == b@.subrange(0, i as int).push(b@[i as int]));
            }
            i = i + 1;
        }
        if a.len() == b.len() {
            proof {
                assert(a@ == a@.subrange(0, i as int));
                assert(b@ == b@.subrange(0, i as int));
                lemma_nodes_lt_order(a@, a@, a@);
            }
            KeyOrder::Equal
        } else if a.len() < b.len() {
            proof {
                assert(a@ == a@.subrange(0, i as int));
                assert(a@ != b@);
            }
            KeyOrder::Less
        } else {
            proof {
                assert(b@ == b@.subrange(0, i as int));
                assert(a@ != b@);
            }
            KeyOrder::Greater
        }
    }
}

/// The least node of `v` is the origin.
pub open spec fn starts_at_origin(v: Seq<Node>) -> bool {
    &&& v.contains((0i8, 0i8))
    &&& forall|i: int| 0 <= i < v.len() ==> node_le((0i8, 0i8), #[trigger] v[i])
}

/// A list of nodes that may describe a region: read from a file, and only
/// turned into a region once checked.
pub struct MaybeRegion(pub Vec<Node>);

impl MaybeRegion {
    /// The region of these nodes, if no node is listed twice and, when
    /// `required_to_start_at_origin`, the least node is the origin (or there
    /// is no node).
    pub fn to_region(self, required_to_start_at_origin: bool) -> (r: Option<Region>)
        ensures
            r is Some <==> self.0@.no_duplicates()
                && (required_to_start_at_origin && self.0@.len() > 0 ==> starts_at_origin(self.0@)),
            r matches Some(reg) ==> reg.wf() && strictly_sorted_nodes(reg@) && reg@.to_set() == self.0@.to_set()
                && reg@.len() == self.0@.len(),
    {
        let ghost v = self.0@;
        let l = self.0.len();
        let sorted = sort_nodes(&self.0);
        let d = dedup_sorted(&sorted);
        proof {
            lemma_strict_implies_sorted(d@);
            lemma_strictly_sorted_no_dups(d@);
            d@.unique_seq_to_set();
            v.lemma_cardinality_of_set();
            if v.no_duplicates() {
                v.unique_seq_to_set();
            }
            if d@.len() == v.len() {
                v.lemma_no_dup_set_cardinality();
            }
        }
        if d.len() != l {
            return None;
        }
        if required_to_start_at_origin && d.len() > 0 && !(d[0].0 == 0 && d[0].1 == 0) {
            proof {
                if starts_at_origin(v) {
                    assert(d@.to_set().contains((0i8, 0i8)));
                    let i = choose|i: int| 0 <= i < d@.len() && d@[i] == (0i8, 0i8);
                    if i > 0 {
                        assert(node_lt(d@[0], d@[i]));
                        assert(v.to_set().contains(d@[0]));
                        let j = choose|j: int| 0 <= j < v.len() && v[j] == d@[0];
                        assert(node_le((0i8, 0i8), v[j]));
                        lemma_node_order(d@[0], (0i8, 0i8), d@[0]);
                    }
                }
            }
            return None;
        }
        proof {
            if required_to_start_at_origin && v.len() > 0 {
                assert(d@[0] == (0i8, 0i8));
                assert(v.to_set().contains(d@[0]));
                assert forall|i: int| 0 <= i < v.len() implies node_le((0i8, 0i8), #[trigger] v[i]) by {
                    assert(d@.to_set().contains(v[i]));
                    let j = choose|j: int| 0 <= j < d@.len() && d@[j] == v[i];
                    if j > 0 {
                        assert(node_lt(d@[0], d@[j]));
                    }
                }
            }
        }
        Some(Region::from_sorted(d))
    }

    /// The nodes of the region `r`, in order.
    pub fn from_region(r: Region) -> (m: MaybeRegion)
        ensures
            m.0@ == r@,
    {
        MaybeRegion(r.into_vec())
    }
}

/// A strictly sorted sequence has no node twice.
proof fn lemma_strictly_sorted_no_dups(s: Seq<Node>)
    requires
        strictly_sorted_nodes(s),
    ensures
        s.no_duplicates(),
{
    assert forall|i: int, j: int| 0 <= i < s.len() && 0 <= j < s.len() && i != j implies s[i] != s[j] by {
        if i < j {
            assert(node_lt(s[i], s[j]));
        } else {
            assert(node_lt(s[j], s[i]));
        }
    }
}

} // verus!
