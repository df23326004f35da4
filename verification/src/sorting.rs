//! Sorted sequences of nodes.

use vstd::prelude::*;
use vstd::relations::{sorted_by, total_ordering};
use crate::node::{Node, node_le, node_lt, node_less, lemma_node_order};

verus! {

broadcast use vstd::seq_lib::group_to_multiset_ensures;

/// The lexicographic order on nodes, as a relation.
pub open spec fn node_leq() -> spec_fn(Node, Node) -> bool {
    |a: Node, b: Node| node_le(a, b)
}

/// `s` is sorted in non-decreasing order.
pub open spec fn sorted_nodes(s: Seq<Node>) -> bool {
    forall|i: int, j: int| 0 <= i < j < s.len() ==> node_le(#[trigger] s[i], #[trigger] s[j])
}

/// `s` is sorted in increasing order: sorted, with no node twice.
pub open spec fn strictly_sorted_nodes(s: Seq<Node>) -> bool {
    forall|i: int, j: int| 0 <= i < j < s.len() ==> node_lt(#[trigger] s[i], #[trigger] s[j])
}

pub proof fn lemma_node_leq_total()
    ensures
        total_ordering(node_leq()),
{
    assert forall|a: Node, b: Node, c: Node|
        #[trigger] node_leq()(a, b) && #[trigger] node_leq()(b, c) implies node_leq()(a, c) by {
        lemma_node_order(a, b, c);
    }
    assert forall|a: Node, b: Node| #[trigger] node_leq()(a, b) && #[trigger] node_leq()(b, a) implies a == b by {
        lemma_node_order(a, b, a);
    }
    assert forall|a: Node, b: Node| node_leq()(a, b) || #[trigger] node_leq()(b, a) by {
        lemma_node_order(a, b, a);
    }
}

/// Two sorted sequences with the same elements, counted with multiplicity,
/// are equal.
pub proof fn lemma_sorted_nodes_unique(x: Seq<Node>, y: Seq<Node>)
    requires
        sorted_nodes(x),
        sorted_nodes(y),
        x.to_multiset() == y.to_multiset(),
    ensures
        x == y,
{
    lemma_node_leq_total();
    assert(sorted_by(x, node_leq()));
    assert(sorted_by(y, node_leq()));
    vstd::seq_lib::lemma_sorted_unique(x, y, node_leq());
}

/// Two strictly sorted sequences with the same elements are equal.
pub proof fn lemma_strictly_sorted_nodes_unique(x: Seq<Node>, y: Seq<Node>)
    requires
        strictly_sorted_nodes(x),
        strictly_sorted_nodes(y),
        x.to_set() == y.to_set(),
    ensures
        x == y,
    decreases x.len(),
{
    if x.len() == 0 {
        if y.len() > 0 {
            assert(y.to_set().contains(y[0]));
        }
    } else if y.len() == 0 {
        assert(x.to_set().contains(x[0]));
    } else {
        assert(x.to_set().contains(x[0]));
        assert(y.to_set().contains(y[0]));
        let i = choose|i: int| 0 <= i < y.len() && y[i] == x[0];
        let j = choose|j: int| 0 <= j < x.len() && x[j] == y[0];
        if i > 0 {
            assert(node_lt(y[0], y[i]));
            if j > 0 {
                assert(node_lt(x[0], x[j]));
                lemma_node_order(x[0], y[0], x[0]);
            }
        }
        assert(x[0] == y[0]) by {
            if i > 0 && j == 0 {
            }
        }
        let x1 = x.drop_first();
        let y1 = y.drop_first();
        assert forall|n: Node| #[trigger] x1.to_set().contains(n) == y1.to_set().contains(n) by {
            if x1.to_set().contains(n) {
                let k = choose|k: int| 0 <= k < x1.len() && x1[k] == n;
                assert(x[k + 1] == n);
                assert(node_lt(x[0], n));
                assert(y.to_set().contains(n));
                let l = choose|l: int| 0 <= l < y.len() && y[l] == n;
                assert(l != 0);
                assert(y1[l - 1] == n);
            }
            if y1.to_set().contains(n) {
                let k = choose|k: int| 0 <= k < y1.len() && y1[k] == n;
                assert(y[k + 1] == n);
                assert(node_lt(y[0], n));
                assert(x.to_set().contains(n));
                let l = choose|l: int| 0 <= l < x.len() && x[l] == n;
                assert(l != 0);
                assert(x1[l - 1] == n);
            }
        }
        assert(x1.to_set() =~= y1.to_set());
        lemma_strictly_sorted_nodes_unique(x1, y1);
        assert(x =~= y) by {
            assert forall|k: int| 0 <= k < x.len() implies x[k] == y[k] by {
                if k > 0 {
                    assert(x[k] == x1[k - 1]);
                }
            }
        }
    }
}

/// A strictly sorted sequence is sorted.
pub proof fn lemma_strict_implies_sorted(s: Seq<Node>)
    requires
        strictly_sorted_nodes(s),
    ensures
        sorted_nodes(s),
        s.no_duplicates(),
{
    assert forall|i: int, j: int| 0 <= i < s.len() && 0 <= j < s.len() && i != j implies s[i]
        != s[j] by {
        if i < j {
            lemma_node_order(s[i], s[j], s[j]);
        } else {
            lemma_node_order(s[j], s[i], s[i]);
        }
    }
}

/// Inserts `x` into the sorted vector `v`, after the nodes equal to it.
pub fn insert_sorted(v: &mut Vec<Node>, x: Node)
    requires
        sorted_nodes(old(v)@),
    ensures
        sorted_nodes(final(v)@),
        final(v)@.to_multiset() == old(v)@.to_multiset().insert(x),
        final(v)@.to_set() == old(v)@.to_set().insert(x),
{
    let mut p: usize = v.len();
    while p > 0 && node_less(&x, &v[p - 1])
        invariant
            p <= v.len(),
            sorted_nodes(v@),
            v@ == old(v)@,
            forall|j: int| p <= j < v.len() ==> node_lt(x, #[trigger] v@[j]),
        decreases p,
    {
        p = p - 1;
    }
    proof {
        if p > 0 {
            assert(node_le(v@[p - 1], x)) by {
                lemma_node_order(x, v@[p - 1], x);
            }
        }
    }
    let ghost old_v = v@;
    v.insert(p, x);
    proof {
        assert(v@ == old_v.insert(p as int, x));
        assert forall|i: int, j: int| 0 <= i < j < v@.len() implies node_le(
            #[trigger] v@[i],
            #[trigger] v@[j],
        ) by {
            if j < p {
            } else if j == p {
                if i < p - 1 {
                    lemma_node_order(old_v[i], old_v[p - 1], x);
                }
            } else if i == p {
            } else if i < p {
                lemma_node_order(old_v[i], x, old_v[j - 1]);
                if p > 0 {
                    lemma_node_order(old_v[i], old_v[p - 1], x);
                }
            } else {
            }
        }
        vstd::seq_lib::to_multiset_insert(old_v, p as int, x);
        assert(v@.to_set() =~= old_v.to_set().insert(x)) by {
            assert forall|n: Node| #[trigger] v@.to_set().contains(n) implies old_v.to_set().insert(
                x,
            ).contains(n) by {
                let k = choose|k: int| 0 <= k < v@.len() && v@[k] == n;
                if k < p {
                    assert(old_v[k] == n);
                } else if k > p {
                    assert(old_v[k - 1] == n);
                }
            }
            assert forall|n: Node| old_v.to_set().insert(x).contains(n) implies #[trigger] v@.to_set().contains(n) by {
                if n == x {
                    assert(v@[p as int] == x);
                } else {
                    let k = choose|k: int| 0 <= k < old_v.len() && old_v[k] == n;
                    if k < p {
                        assert(v@[k] == n);
                    } else {
                        assert(v@[k + 1] == n);
                    }
                }
            }
        }
    }
}

/// Sorts the nodes of `v` in lexicographic order.
pub fn sort_nodes(v: &Vec<Node>) -> (r: Vec<Node>)
    ensures
        sorted_nodes(r@),
        r@.to_multiset() == v@.to_multiset(),
        r@.to_set() == v@.to_set(),
        r@.len() == v@.len(),
{
    let mut r: Vec<Node> = Vec::new();
    let mut i: usize = 0;
    while i < v.len()
        invariant
            i <= v.len(),
            sorted_nodes(r@),
            r@.to_multiset() == v@.subrange(0, i as int).to_multiset(),
            r@.to_set() == v@.subrange(0, i as int).to_set(),
        decreases v.len() - i,
    {
        let x = v[i];
        insert_sorted(&mut r, x);
        proof {
            assert(v@.subrange(0, i + 1) == v@.subrange(0, i as int).push(x));
            vstd::seq_lib::to_multiset_build(v@.subrange(0, i as int), x);
            (v@.subrange(0, i as int)).lemma_push_to_set_commute(x);
        }
        i = i + 1;
    }
    proof {
        assert(v@.subrange(0, v@.len() as int) == v@);
        vstd::seq_lib::to_multiset_len(r@);
        vstd::seq_lib::to_multiset_len(v@);
    }
    r
}

/// The strictly sorted sequence of the distinct nodes of the sorted vector `v`.
pub fn dedup_sorted(v: &Vec<Node>) -> (r: Vec<Node>)
    requires
        sorted_nodes(v@),
    ensures
        strictly_sorted_nodes(r@),
        r@.to_set() == v@.to_set(),
{
    let mut r: Vec<Node> = Vec::new();
    let mut i: usize = 0;
    while i < v.len()
        invariant
            i <= v.len(),
            sorted_nodes(v@),
            strictly_sorted_nodes(r@),
            r@.to_set() == v@.subrange(0, i as int).to_set(),
            i > 0 ==> r@.len() > 0 && r@.last() == v@[i - 1],
            i == 0 ==> r@.len() == 0,
        decreases v.len() - i,
    {
        let x = v[i];
        let ghost old_r = r@;
        if r.len() == 0 || node_less(&r[r.len() - 1], &x) {
            r.push(x);
            proof {
                assert forall|a: int, b: int| 0 <= a < b < r@.len() implies node_lt(
                    #[trigger] r@[a],
                    #[trigger] r@[b],
                ) by {
                    if b == r@.len() - 1 && a < b - 1 {
                        lemma_node_order(r@[a], old_r.last(), x);
                    }
                }
                (old_r).lemma_push_to_set_commute(x);
            }
        } else {
            proof {
                assert(node_le(v@[i - 1], x));
                assert(r@.last() == x);
                assert(r@.to_set().insert(x) =~= r@.to_set());
            }
        }
        proof {
            assert(v@.subrange(0, i + 1) == v@.subrange(0, i as int).push(x));
            (v@.subrange(0, i as int)).lemma_push_to_set_commute(x);
        }
        i = i + 1;
    }
    proof {
        assert(v@.subrange(0, v@.len() as int) == v@);
    }
    r
}

/// A copy of `v`.
pub fn copy_nodes(v: &Vec<Node>) -> (r: Vec<Node>)
    ensures
        r@ == v@,
{
    let mut r: Vec<Node> = Vec::new();
    let mut i: usize = 0;
    while i < v.len()
        invariant
            i <= v.len(),
            r@ == v@.subrange(0, i as int),
        decreases v.len() - i,
    {
        r.push(v[i]);
        i = i + 1;
    }
    r
}

/// Whether `v` holds `x`.
pub fn vec_contains(v: &Vec<Node>, x: &Node) -> (r: bool)
    ensures
        r == v@.contains(*x),
{
    let mut i: usize = 0;
    while i < v.len()
        invariant
            i <= v.len(),
            forall|j: int| 0 <= j < i ==> v@[j] != *x,
        decreases v.len() - i,
    {
        if v[i].0 == x.0 && v[i].1 == x.1 {
            return true;
        }
        i = i + 1;
    }
    false
}

} // verus!
