//! Regions of a fixed universe of at most 128 nodes, as bitsets.

use vstd::prelude::*;
use crate::node::Node;
use crate::region::Region;
use crate::lattice::Graph;
use crate::ordset::{KeyOrder, TotalKey};
use crate::sorting::{sorted_nodes, strictly_sorted_nodes, lemma_strictly_sorted_nodes_unique, lemma_strict_implies_sorted};

verus! {

/// Number of bytes of a compact region: it holds at most eight times as many
/// nodes.
pub const BYTES_IN_COMPACT_REGION: usize = 16;

/// Bit `i` of `b` is set.
pub open spec fn has_bit(b: u128, i: int) -> bool {
    0 <= i < 128 && (b >> (i as u128)) & 1u128 == 1u128
}

/// The positions of the set bits of `b`.
pub open spec fn bits(b: u128) -> Set<int> {
    Set::new(|i: int| has_bit(b, i))
}

/// Number of set bits of `b` below position `k`.
pub open spec fn count_bits(b: u128, k: nat) -> nat
    decreases k,
{
    if k == 0 {
        0
    } else {
        count_bits(b, (k - 1) as nat) + if has_bit(b, k - 1) { 1nat } else { 0nat }
    }
}

/// The nodes `s[i]` for the positions `i < k` of set bits of `b`, in order.
pub open spec fn select(b: u128, s: Seq<Node>, k: nat) -> Seq<Node>
    decreases k,
{
    if k == 0 {
        Seq::empty()
    } else {
        select(b, s, (k - 1) as nat) + if has_bit(b, k - 1) { seq![s[k - 1]] } else { Seq::empty() }
    }
}

/// The region that the bitset `b` stands for in the universe `u`.
pub open spec fn decode(b: u128, u: Seq<Node>) -> Seq<Node> {
    select(b, u, u.len())
}

/// The bitset of the nodes of `r` among the first 128 nodes of `u`: bit `i`
/// is set when `r` holds `u[i]`.
pub open spec fn encodes(b: u128, r: Seq<Node>, u: Seq<Node>) -> bool {
    forall|i: int| 0 <= i < 128 ==> #[trigger] has_bit(b, i) == (i < u.len() && r.contains(u[i]))
}

proof fn lemma_bit_or_one(b: u128, i: u128, j: u128)
    by (bit_vector)
    requires
        i < 128,
        j < 128,
    ensures
        ((b | (1u128 << i)) >> j) & 1u128 == 1u128 <==> ((b >> j) & 1u128 == 1u128 || i == j),
{
}

proof fn lemma_bit_zero(j: u128)
    by (bit_vector)
    requires
        j < 128,
    ensures
        (0u128 >> j) & 1u128 != 1u128,
{
}

proof fn lemma_bit_or(a: u128, b: u128, j: u128)
    by (bit_vector)
    requires
        j < 128,
    ensures
        ((a | b) >> j) & 1u128 == 1u128 <==> ((a >> j) & 1u128 == 1u128 || (b >> j) & 1u128 == 1u128),
{
}

proof fn lemma_bit_and(a: u128, b: u128, j: u128)
    by (bit_vector)
    requires
        j < 128,
    ensures
        ((a & b) >> j) & 1u128 == 1u128 <==> ((a >> j) & 1u128 == 1u128 && (b >> j) & 1u128 == 1u128),
{
}

proof fn lemma_bit_xor(a: u128, b: u128, j: u128)
    by (bit_vector)
    requires
        j < 128,
    ensures
        ((a ^ b) >> j) & 1u128 == 1u128 <==> ((a >> j) & 1u128 == 1u128) != ((b >> j) & 1u128 == 1u128),
{
}

proof fn lemma_bit_and_not(a: u128, b: u128, j: u128)
    by (bit_vector)
    requires
        j < 128,
    ensures
        ((a & !b) >> j) & 1u128 == 1u128 <==> ((a >> j) & 1u128 == 1u128 && !((b >> j) & 1u128 == 1u128)),
{
}

proof fn lemma_bit_single(i: u128, j: u128)
    by (bit_vector)
    requires
        i < 128,
        j < 128,
    ensures
        ((1u128 << i) >> j) & 1u128 == 1u128 <==> i == j,
{
}

/// The bitset of the nodes of `r` among the first `n` nodes of `u`.
pub open spec fn mask_of(r: Seq<Node>, u: Seq<Node>, n: nat) -> u128
    decreases n,
{
    if n == 0 {
        0
    } else {
        let m = mask_of(r, u, (n - 1) as nat);
        if r.contains(u[n - 1]) {
            m | (1u128 << ((n - 1) as u128))
        } else {
            m
        }
    }
}

/// Every region of a universe of at most 128 nodes has a bitset.
pub proof fn lemma_mask_of(r: Seq<Node>, u: Seq<Node>, n: nat)
    requires
        n <= u.len(),
        n <= 128,
    ensures
        forall|j: int| 0 <= j < 128 ==> #[trigger] has_bit(mask_of(r, u, n), j) == (j < n && r.contains(u[j])),
        n == u.len() ==> encodes(mask_of(r, u, n), r, u),
    decreases n,
{
    if n == 0 {
        assert forall|j: int| 0 <= j < 128 implies !#[trigger] has_bit(0u128, j) by {
            lemma_bit_zero(j as u128);
        }
    } else {
        lemma_mask_of(r, u, (n - 1) as nat);
        let m = mask_of(r, u, (n - 1) as nat);
        assert forall|j: int| 0 <= j < 128 implies #[trigger] has_bit(mask_of(r, u, n), j) == (j < n && r.contains(u[j])) by {
            lemma_bit_or_one(m, (n - 1) as u128, j as u128);
            assert(has_bit(m, j) == (j < n - 1 && r.contains(u[j])));
        }
    }
}

/// The bits of unions, intersections and differences of bitsets.
pub proof fn lemma_has_bit_ops(a: u128, b: u128)
    ensures
        forall|i: int| #[trigger] has_bit(a | b, i) == (has_bit(a, i) || has_bit(b, i)),
        forall|i: int| #[trigger] has_bit(a & b, i) == (has_bit(a, i) && has_bit(b, i)),
        forall|i: int| #[trigger] has_bit(a & !b, i) == (has_bit(a, i) && !has_bit(b, i)),
        forall|i: int| !#[trigger] has_bit(0u128, i),
{
    assert forall|i: int| #[trigger] has_bit(a | b, i) == (has_bit(a, i) || has_bit(b, i)) by {
        if 0 <= i < 128 {
            lemma_bit_or(a, b, i as u128);
        }
    }
    assert forall|i: int| #[trigger] has_bit(a & b, i) == (has_bit(a, i) && has_bit(b, i)) by {
        if 0 <= i < 128 {
            lemma_bit_and(a, b, i as u128);
        }
    }
    assert forall|i: int| #[trigger] has_bit(a & !b, i) == (has_bit(a, i) && !has_bit(b, i)) by {
        if 0 <= i < 128 {
            lemma_bit_and_not(a, b, i as u128);
        }
    }
    assert forall|i: int| !#[trigger] has_bit(0u128, i) by {
        if 0 <= i < 128 {
            lemma_bit_zero(i as u128);
        }
    }
}

/// The bitset with the single bit `i`.
pub proof fn lemma_has_bit_single(i: u128)
    requires
        i < 128,
    ensures
        forall|j: int| #[trigger] has_bit(1u128 << i, j) == (j == i),
{
    assert forall|j: int| #[trigger] has_bit(1u128 << i, j) == (j == i) by {
        if 0 <= j < 128 {
            lemma_bit_single(i, j as u128);
        }
    }
}

proof fn lemma_shift_step(x: u128, k: u128)
    by (bit_vector)
    requires
        k < 127,
        (x >> k) != 0,
        (x >> k) & 1u128 != 1u128,
    ensures
        (x >> (k + 1)) != 0,
{
}

proof fn lemma_shift_top(x: u128)
    by (bit_vector)
    requires
        (x >> 127u128) != 0,
    ensures
        (x >> 127u128) & 1u128 == 1u128,
{
}

proof fn lemma_shift_zero(x: u128)
    by (bit_vector)
    ensures
        x >> 0u128 == x,
{
}

proof fn lemma_bit_witness_from(x: u128, k: u128)
    requires
        k < 128,
        (x >> k) != 0,
    ensures
        exists|i: int| k <= i < 128 && #[trigger] has_bit(x, i),
    decreases 128 - k,
{
    if (x >> k) & 1u128 == 1u128 {
        assert(has_bit(x, k as int));
    } else if k == 127 {
        lemma_shift_top(x);
    } else {
        lemma_shift_step(x, k);
        lemma_bit_witness_from(x, (k + 1) as u128);
    }
}

/// A nonzero bitset has a set bit.
pub proof fn lemma_bit_witness(x: u128)
    requires
        x != 0,
    ensures
        exists|i: int| 0 <= i < 128 && #[trigger] has_bit(x, i),
{
    lemma_shift_zero(x);
    lemma_bit_witness_from(x, 0);
}

/// The bitset has no set bit exactly when it is zero.
pub proof fn lemma_bits_empty(x: u128)
    ensures
        (x == 0) == (bits(x) == Set::<int>::empty()),
{
    if x == 0 {
        assert forall|i: int| !bits(x).contains(i) by {
            if 0 <= i < 128 {
                lemma_bit_zero(i as u128);
            }
        }
        assert(bits(x) =~= Set::<int>::empty());
    } else {
        lemma_bit_witness(x);
        let i = choose|i: int| 0 <= i < 128 && #[trigger] has_bit(x, i);
        assert(bits(x).contains(i));
    }
}

/// The nodes selected from `s` are a subsequence of `s`.
proof fn lemma_select(b: u128, s: Seq<Node>, k: nat)
    requires
        k <= s.len(),
    ensures
        forall|n: Node| #[trigger] select(b, s, k).contains(n) <==> exists|i: int| 0 <= i < k && has_bit(b, i) && s[i] == n,
        sorted_nodes(s) ==> sorted_nodes(select(b, s, k)),
        strictly_sorted_nodes(s) ==> strictly_sorted_nodes(select(b, s, k)),
        forall|j: int| 0 <= j < select(b, s, k).len() ==> exists|i: int| 0 <= i < k && #[trigger] select(b, s, k)[j] == #[trigger] s[i],
        select(b, s, k).len() == count_bits(b, k),
    decreases k,
{
    if k > 0 {
        lemma_select(b, s, (k - 1) as nat);
        let p = select(b, s, (k - 1) as nat);
        let q = select(b, s, k);
        assert forall|n: Node| #[trigger] q.contains(n) <==> exists|i: int| 0 <= i < k && has_bit(b, i) && s[i] == n by {
            if q.contains(n) {
                let j = choose|j: int| 0 <= j < q.len() && q[j] == n;
                if j < p.len() {
                    assert(p.contains(n));
                }
            }
            if exists|i: int| 0 <= i < k && has_bit(b, i) && s[i] == n {
                let i = choose|i: int| 0 <= i < k && has_bit(b, i) && s[i] == n;
                if i < k - 1 {
                    assert(p.contains(n));
                    let j = choose|j: int| 0 <= j < p.len() && p[j] == n;
                    assert(q[j] == n);
                } else {
                    assert(q[q.len() - 1] == n);
                }
            }
        }
        assert forall|j: int| 0 <= j < q.len() implies exists|i: int| 0 <= i < k && #[trigger] q[j] == #[trigger] s[i] by {
            if j < p.len() {
                assert(q[j] == p[j]);
                let i = choose|i: int| 0 <= i < k - 1 && p[j] == #[trigger] s[i];
                assert(q[j] == s[i]);
            } else {
                assert(q[j] == s[k - 1]);
            }
        }
        if has_bit(b, k - 1) {
            if sorted_nodes(s) {
                assert forall|x: int, y: int| 0 <= x < y < q.len() implies crate::node::node_le(#[trigger] q[x], #[trigger] q[y]) by {
                    if y == q.len() - 1 && x < p.len() {
                        assert(q[x] == p[x]);
                        let i = choose|i: int| 0 <= i < k - 1 && p[x] == #[trigger] s[i];
                    }
                }
            }
            if strictly_sorted_nodes(s) {
                assert forall|x: int, y: int| 0 <= x < y < q.len() implies crate::node::node_lt(#[trigger] q[x], #[trigger] q[y]) by {
                    if y == q.len() - 1 && x < p.len() {
                        assert(q[x] == p[x]);
                        let i = choose|i: int| 0 <= i < k - 1 && p[x] == #[trigger] s[i];
                    }
                }
            }
        } else {
            assert(q =~= p);
        }
    }
}

/// Compact representation of a region as a bitset over a universe: bit `i`
/// stands for the `i`-th node of the universe.
#[derive(Copy, Clone, Debug, PartialEq, Eq, Structural, Hash, PartialOrd, Ord)]
pub struct CompactRegion(pub(crate) u128);

impl View for CompactRegion {
    type V = u128;

    closed spec fn view(&self) -> u128 {
        self.0
    }
}

impl CompactRegion {
    /// The empty region.
    pub fn empty() -> (r: CompactRegion)
        ensures
            r@ == 0,
            bits(r@) == Set::<int>::empty(),
    {
        proof {
            lemma_bits_empty(0);
        }
        CompactRegion(0)
    }

    /// The region with the given bits.
    pub(crate) fn from_bits(b: u128) -> (r: CompactRegion)
        ensures
            r@ == b,
    {
        CompactRegion(b)
    }

    /// The bits of the region.
    pub fn bits(self) -> (r: u128)
        ensures
            r == self@,
    {
        self.0
    }

    /// The region of the nodes of `r` in the universe.
    pub fn from(r: &Region, universe: &Graph) -> (c: CompactRegion)
        requires
            universe@.len() <= 128,
        ensures
            encodes(c@, r@, universe@),
            strictly_sorted_nodes(r@) && strictly_sorted_nodes(universe@)
                && r@.to_set().subset_of(universe@.to_set()) ==> decode(c@, universe@) == r@,
    {
        let nodes = universe.nodes();
        let mut bitset: u128 = 0;
        let mut i: usize = 0;
        proof {
            assert forall|j: int| 0 <= j < 128 implies !#[trigger] has_bit(0u128, j) by {
                lemma_bit_zero(j as u128);
            }
        }
        while i < nodes.len()
            invariant
                i <= nodes.len() <= 128,
                nodes@ == universe@,
                forall|j: int| 0 <= j < 128 ==> #[trigger] has_bit(bitset, j) == (j < i && r@.contains(universe@[j])),
            decreases nodes.len() - i,
        {
            if r.contains(&nodes[i]) {
                let ghost old_b = bitset;
                bitset = bitset | (1u128 << (i as u128));
                proof {
                    assert forall|j: int| 0 <= j < 128 implies #[trigger] has_bit(bitset, j) == (j < i + 1 && r@.contains(universe@[j])) by {
                        lemma_bit_or_one(old_b, i as u128, j as u128);
                        assert(has_bit(old_b, j) == (j < i && r@.contains(universe@[j])));
                    }
                }
            }
            i = i + 1;
        }
        let c = CompactRegion(bitset);
        proof {
            CompactRegion::lemma_roundtrip(c@, r@, universe@);
        }
        c
    }

    /// Decoding the encoding of a region of the universe gives the region
    /// back.
    pub proof fn lemma_roundtrip(b: u128, r: Seq<Node>, u: Seq<Node>)
        requires
            u.len() <= 128,
            encodes(b, r, u),
        ensures
            strictly_sorted_nodes(r) && strictly_sorted_nodes(u) && r.to_set().subset_of(u.to_set())
                ==> decode(b, u) == r,
    {
        if strictly_sorted_nodes(r) && strictly_sorted_nodes(u) && r.to_set().subset_of(u.to_set()) {
            lemma_select(b, u, u.len());
            let d = decode(b, u);
            assert forall|n: Node| #[trigger] d.to_set().contains(n) == r.to_set().contains(n) by {
                if d.contains(n) {
                    let i = choose|i: int| 0 <= i < u.len() && has_bit(b, i) && u[i] == n;
                }
                if r.contains(n) {
                    assert(u.to_set().contains(n));
                    let i = choose|i: int| 0 <= i < u.len() && u[i] == n;
                    assert(has_bit(b, i));
                    assert(d.contains(n));
                }
            }
            assert(d.to_set() =~= r.to_set());
            lemma_strictly_sorted_nodes_unique(d, r);
        }
    }

    /// The region that this bitset stands for in the universe.
    pub fn to_region(&self, universe: &Graph) -> (r: Region)
        requires
            universe.wf(),
            universe@.len() <= 128,
        ensures
            r.wf(),
            r@ == decode(self@, universe@),
    {
        proof {
            universe.lemma_wf();
        }
        let nodes = universe.nodes();
        let mut v: Vec<Node> = Vec::new();
        let mut i: usize = 0;
        while i < nodes.len()
            invariant
                i <= nodes.len() <= 128,
                nodes@ == universe@,
                v@ == select(self@, universe@, i as nat),
            decreases nodes.len() - i,
        {
            if (self.0 >> (i as u128)) & 1u128 == 1u128 {
                v.push(nodes[i]);
            }
            proof {
                assert(select(self@, universe@, (i + 1) as nat) =~= v@);
            }
            i = i + 1;
        }
        proof {
            lemma_select(self@, universe@, universe@.len());
        }
        Region::from_sorted(v)
    }

    /// Whether the node `n` of the universe is in the region.
    pub fn contains(&self, n: &Node, universe: &Graph) -> (r: bool)
        requires
            universe.wf(),
            universe@.len() <= 128,
            universe@.contains(*n),
        ensures
            r == has_bit(self@, universe.index_of(*n) as int),
            strictly_sorted_nodes(universe@) ==> r == decode(self@, universe@).contains(*n),
    {
        proof {
            universe.lemma_wf();
        }
        let i = universe.get_index(n).unwrap();
        let r = (self.0 >> (i as u128)) & 1u128 == 1u128;
        proof {
            if strictly_sorted_nodes(universe@) {
                lemma_strict_implies_sorted(universe@);
                lemma_select(self@, universe@, universe@.len());
                let d = decode(self@, universe@);
                if d.contains(*n) {
                    let j = choose|j: int| 0 <= j < universe@.len() && has_bit(self@, j) && universe@[j] == *n;
                    assert(universe.index_of(universe@[j]) == j);
                }
            }
        }
        r
    }

    /// Number of nodes in the region.
    pub fn len(self) -> (r: usize)
        ensures
            r == count_bits(self@, 128),
    {
        let mut count: usize = 0;
        let mut i: u32 = 0;
        while i < 128
            invariant
                i <= 128,
                count == count_bits(self@, i as nat),
                count <= i,
            decreases 128 - i,
        {
            if (self.0 >> (i as u128)) & 1u128 == 1u128 {
                count = count + 1;
            }
            i = i + 1;
        }
        count
    }

    /// Whether the region is empty.
    pub fn is_empty(self) -> (r: bool)
        ensures
            r == (self@ == 0),
            r == (bits(self@) == Set::<int>::empty()),
    {
        proof {
            lemma_bits_empty(self@);
        }
        self.0 == 0
    }

    /// Union of two compact regions of the same universe.
    pub fn bitor(self, other: Self) -> (r: Self)
        ensures
            r@ == self@ | other@,
            bits(r@) == bits(self@) + bits(other@),
    {
        let r = CompactRegion(self.0 | other.0);
        proof {
            assert forall|i: int| #[trigger] bits(r@).contains(i) == (bits(self@) + bits(other@)).contains(i) by {
                if 0 <= i < 128 {
                    lemma_bit_or(self@, other@, i as u128);
                }
            }
            assert(bits(r@) =~= bits(self@) + bits(other@));
        }
        r
    }

    /// Whether every node of `other` is in this region.
    pub fn is_superset_of(self, other: Self) -> (r: bool)
        ensures
            r == bits(other@).subset_of(bits(self@)),
    {
        let r = self.0 & other.0 == other.0;
        proof {
            if r {
                assert forall|i: int| bits(other@).contains(i) implies bits(self@).contains(i) by {
                    lemma_bit_and(self@, other@, i as u128);
                }
            } else {
                let a = self@;
                let b = other@;
                let x = (a & b) ^ b;
                assert(x != 0) by (bit_vector)
                    requires
                        x == (a & b) ^ b,
                        a & b != b,
                ;
                lemma_bit_witness(x);
                let i = choose|i: int| 0 <= i < 128 && #[trigger] has_bit(x, i);
                lemma_bit_xor(self@ & other@, other@, i as u128);
                lemma_bit_and(self@, other@, i as u128);
                assert(bits(other@).contains(i) && !bits(self@).contains(i));
            }
        }
        r
    }

    /// Whether the two regions share no node.
    pub fn is_disjoint(self, other: Self) -> (r: bool)
        ensures
            r == bits(self@).disjoint(bits(other@)),
    {
        let r = self.0 & other.0 == 0;
        proof {
            if r {
                assert forall|i: int| bits(self@).contains(i) implies !bits(other@).contains(i) by {
                    lemma_bit_and(self@, other@, i as u128);
                    lemma_bit_zero(i as u128);
                }
            } else {
                lemma_bit_witness(self@ & other@);
                let i = choose|i: int| 0 <= i < 128 && #[trigger] has_bit(self@ & other@, i);
                lemma_bit_and(self@, other@, i as u128);
                assert(bits(self@).contains(i) && bits(other@).contains(i));
            }
        }
        r
    }
}

/// Below position `k`, the bits of a union and of an intersection count as
/// many as those of the two operands.
proof fn lemma_count_union(a: u128, b: u128, k: nat)
    requires
        k <= 128,
    ensures
        count_bits(a | b, k) + count_bits(a & b, k) == count_bits(a, k) + count_bits(b, k),
    decreases k,
{
    if k > 0 {
        lemma_count_union(a, b, (k - 1) as nat);
        lemma_bit_or(a, b, (k - 1) as u128);
        lemma_bit_and(a, b, (k - 1) as u128);
    }
}

/// No bit below position `k` is set exactly when none is counted.
proof fn lemma_count_zero(x: u128, k: nat)
    requires
        k <= 128,
    ensures
        count_bits(x, k) == 0 <==> forall|i: int| 0 <= i < k ==> !#[trigger] has_bit(x, i),
    decreases k,
{
    if k > 0 {
        lemma_count_zero(x, (k - 1) as nat);
    }
}

/// Two regions share no node exactly when their union has as many nodes as
/// the two of them together.
pub proof fn lemma_disjoint_iff_sizes_add(a: CompactRegion, b: CompactRegion)
    ensures
        bits(a@).disjoint(bits(b@)) <==> count_bits(a@ | b@, 128) == count_bits(a@, 128) + count_bits(b@, 128),
{
    lemma_count_union(a@, b@, 128);
    lemma_count_zero(a@ & b@, 128);
    if bits(a@).disjoint(bits(b@)) {
        assert forall|i: int| 0 <= i < 128 implies !#[trigger] has_bit(a@ & b@, i) by {
            lemma_bit_and(a@, b@, i as u128);
            assert(!(bits(a@).contains(i) && bits(b@).contains(i)));
        }
    } else {
        let i = choose|i: int| bits(a@).contains(i) && bits(b@).contains(i);
        lemma_bit_and(a@, b@, i as u128);
        assert(has_bit(a@ & b@, i));
    }
}

impl TotalKey for CompactRegion {
    fn copy_key(&self) -> (r: Self) {
        *self
    }

    open spec fn key_lt(a: u128, b: u128) -> bool {
        a < b
    }

    proof fn lemma_key_order(a: u128, b: u128, c: u128) {
    }

    fn order_with(&self, other: &Self) -> (r: KeyOrder) {
        if self.0 < other.0 {
            KeyOrder::Less
        } else if self.0 == other.0 {
            KeyOrder::Equal
        } else {
            KeyOrder::Greater
        }
    }
}

/// The nodes of a decoded region are nodes of the universe.
pub proof fn lemma_decode_in_universe(b: u128, u: Seq<Node>)
    ensures
        forall|j: int| 0 <= j < decode(b, u).len() ==> u.contains(#[trigger] decode(b, u)[j]),
        forall|n: Node| #[trigger] decode(b, u).contains(n) <==> exists|i: int| 0 <= i < u.len() && has_bit(b, i) && u[i] == n,
        strictly_sorted_nodes(u) ==> strictly_sorted_nodes(decode(b, u)),
        decode(b, u).len() == count_bits(b, u.len()),
{
    lemma_select(b, u, u.len());
    assert forall|j: int| 0 <= j < decode(b, u).len() implies u.contains(#[trigger] decode(b, u)[j]) by {
        let i = choose|i: int| 0 <= i < u.len() && #[trigger] decode(b, u)[j] == #[trigger] u[i];
    }
}

/// Two bitsets that encode the same region of the same universe are equal.
pub proof fn lemma_encodes_unique(b1: u128, b2: u128, r: Seq<Node>, u: Seq<Node>)
    requires
        encodes(b1, r, u),
        encodes(b2, r, u),
    ensures
        b1 == b2,
{
    let x = b1 ^ b2;
    if x != 0 {
        lemma_bit_witness(x);
        let i = choose|i: int| 0 <= i < 128 && #[trigger] has_bit(x, i);
        lemma_bit_xor(b1, b2, i as u128);
        assert(has_bit(b1, i) == has_bit(b2, i));
    }
    assert(b1 == b2) by (bit_vector)
        requires
            b1 ^ b2 == 0,
    ;
}

/// A bitset with no bit beyond the universe is the encoding of the region
/// it decodes to, and the only one: encoding a decoded region gives the
/// bitset back.
pub proof fn lemma_mask_roundtrip(b: u128, u: Seq<Node>, b2: u128)
    requires
        u.no_duplicates(),
        forall|i: int| #[trigger] has_bit(b, i) ==> i < u.len(),
        encodes(b2, decode(b, u), u),
    ensures
        encodes(b, decode(b, u), u),
        b2 == b,
{
    lemma_decode_in_universe(b, u);
    assert forall|i: int| 0 <= i < 128 implies #[trigger] has_bit(b, i) == (i < u.len() && decode(b, u).contains(u[i])) by {
        if i < u.len() && decode(b, u).contains(u[i]) {
            let j = choose|j: int| 0 <= j < u.len() && has_bit(b, j) && u[j] == u[i];
            assert(j == i);
        }
    }
    lemma_encodes_unique(b, b2, decode(b, u), u);
}

/// The region of a union of bitsets is the union of their regions.
pub proof fn lemma_decode_union(a: u128, b: u128, u: Seq<Node>)
    ensures
        decode(a | b, u).to_set() == decode(a, u).to_set() + decode(b, u).to_set(),
{
    lemma_decode_in_universe(a, u);
    lemma_decode_in_universe(b, u);
    lemma_decode_in_universe(a | b, u);
    assert forall|n: Node| decode(a | b, u).to_set().contains(n) <==> (decode(a, u).to_set() + decode(b, u).to_set()).contains(n) by {
        if decode(a | b, u).contains(n) {
            let i = choose|i: int| 0 <= i < u.len() && has_bit(a | b, i) && u[i] == n;
            lemma_bit_or(a, b, i as u128);
            if has_bit(a, i) {
                assert(decode(a, u).contains(n));
            } else {
                assert(decode(b, u).contains(n));
            }
        }
        if decode(a, u).contains(n) {
            let i = choose|i: int| 0 <= i < u.len() && has_bit(a, i) && u[i] == n;
            lemma_bit_or(a, b, i as u128);
            assert(decode(a | b, u).contains(n));
        }
        if decode(b, u).contains(n) {
            let i = choose|i: int| 0 <= i < u.len() && has_bit(b, i) && u[i] == n;
            lemma_bit_or(a, b, i as u128);
            assert(decode(a | b, u).contains(n));
        }
    }
    assert(decode(a | b, u).to_set() =~= decode(a, u).to_set() + decode(b, u).to_set());
}

/// For bitsets within a universe without repeats, the bits of one are among
/// those of the other exactly when its region lies in the other's, and the
/// bits are apart exactly when the regions are.
pub proof fn lemma_decode_subset_disjoint(a: u128, b: u128, u: Seq<Node>)
    requires
        u.no_duplicates(),
        forall|i: int| #[trigger] has_bit(a, i) ==> i < u.len(),
        forall|i: int| #[trigger] has_bit(b, i) ==> i < u.len(),
    ensures
        bits(b).subset_of(bits(a)) <==> decode(b, u).to_set().subset_of(decode(a, u).to_set()),
        bits(a).disjoint(bits(b)) <==> decode(a, u).to_set().disjoint(decode(b, u).to_set()),
{
    lemma_decode_in_universe(a, u);
    lemma_decode_in_universe(b, u);
    assert forall|i: int| 0 <= i < u.len() implies (#[trigger] has_bit(a, i) <==> decode(a, u).contains(u[i]))
        && (has_bit(b, i) <==> decode(b, u).contains(u[i])) by {
        if decode(a, u).contains(u[i]) {
            let j = choose|j: int| 0 <= j < u.len() && has_bit(a, j) && u[j] == u[i];
            assert(j == i);
        }
        if decode(b, u).contains(u[i]) {
            let j = choose|j: int| 0 <= j < u.len() && has_bit(b, j) && u[j] == u[i];
            assert(j == i);
        }
    }
    if bits(b).subset_of(bits(a)) {
        assert forall|n: Node| decode(b, u).to_set().contains(n) implies decode(a, u).to_set().contains(n) by {
            let i = choose|i: int| 0 <= i < u.len() && has_bit(b, i) && u[i] == n;
            assert(bits(b).contains(i));
        }
    }
    if decode(b, u).to_set().subset_of(decode(a, u).to_set()) {
        assert forall|i: int| bits(b).contains(i) implies bits(a).contains(i) by {
            assert(decode(b, u).to_set().contains(u[i]));
        }
    }
    if bits(a).disjoint(bits(b)) {
        assert forall|n: Node| decode(a, u).to_set().contains(n) implies !decode(b, u).to_set().contains(n) by {
            let i = choose|i: int| 0 <= i < u.len() && has_bit(a, i) && u[i] == n;
            if decode(b, u).contains(n) {
                let j = choose|j: int| 0 <= j < u.len() && has_bit(b, j) && u[j] == n;
                assert(i == j);
                assert(bits(a).contains(i) && bits(b).contains(i));
            }
        }
    }
    if decode(a, u).to_set().disjoint(decode(b, u).to_set()) {
        assert forall|i: int| bits(a).contains(i) implies !bits(b).contains(i) by {
            assert(decode(a, u).to_set().contains(u[i]));
        }
    }
}

/// Union of bitsets is commutative, associative and idempotent, with the
/// empty bitset as identity.
pub proof fn lemma_union_laws(a: u128, b: u128, c: u128)
    ensures
        a | b == b | a,
        (a | b) | c == a | (b | c),
        a | a == a,
        a | 0 == a,
{
    assert(a | b == b | a && (a | b) | c == a | (b | c) && a | a == a && a | 0 == a) by (bit_vector);
}

} // verus!
