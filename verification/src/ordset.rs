//! Totally ordered keys, and sets of keys kept as strictly increasing vectors.
//!
//! The enumeration algorithms of this crate collect regions, tilings and
//! bitsets into sets.  A set is held as a `Vec` sorted in increasing order of
//! its keys, without repetitions, and its meaning is the set of the keys'
//! views.

use vstd::prelude::*;

verus! {

/// Outcome of a three-way comparison.
#[derive(Clone, Copy, PartialEq, Eq, Structural, Debug)]
pub enum KeyOrder {
    Less,
    Equal,
    Greater,
}

/// A key type with a strict total order on its views.
pub trait TotalKey: View + Sized {
    /// A copy of the key.
    fn copy_key(&self) -> (r: Self)
        ensures
            r@ == self@,
    ;

    spec fn key_lt(a: Self::V, b: Self::V) -> bool;

    proof fn lemma_key_order(a: Self::V, b: Self::V, c: Self::V)
        ensures
            !Self::key_lt(a, a),
            Self::key_lt(a, b) && Self::key_lt(b, c) ==> Self::key_lt(a, c),
            a != b ==> Self::key_lt(a, b) || Self::key_lt(b, a),
    ;

    fn order_with(&self, other: &Self) -> (r: KeyOrder)
        ensures
            (r == KeyOrder::Less) == Self::key_lt(self@, other@),
            (r == KeyOrder::Equal) == (self@ == other@),
            (r == KeyOrder::Greater) == Self::key_lt(other@, self@),
    ;
}

/// The views of the elements of `s`.
pub open spec fn views<K: View>(s: Seq<K>) -> Seq<K::V> {
    s.map_values(|k: K| k@)
}

/// `s` is strictly increasing.
pub open spec fn strictly_sorted<K: TotalKey>(s: Seq<K::V>) -> bool {
    forall|i: int, j: int| 0 <= i < j < s.len() ==> K::key_lt(#[trigger] s[i], #[trigger] s[j])
}

/// A vector that holds a set of keys: its views are strictly increasing.
pub open spec fn is_key_set<K: TotalKey>(v: Seq<K>) -> bool {
    strictly_sorted::<K>(views(v))
}

/// The set of keys that `v` holds.
pub open spec fn key_set<K: TotalKey>(v: Seq<K>) -> Set<K::V> {
    views(v).to_set()
}

/// In a strictly increasing sequence, a key occurs at most once.
pub proof fn lemma_sorted_index_unique<K: TotalKey>(s: Seq<K::V>, i: int, j: int)
    requires
        strictly_sorted::<K>(s),
        0 <= i < s.len(),
        0 <= j < s.len(),
        s[i] == s[j],
    ensures
        i == j,
{
    if i < j {
        K::lemma_key_order(s[i], s[j], s[j]);
    } else if j < i {
        K::lemma_key_order(s[j], s[i], s[i]);
    }
}

/// Binary search for `k` in the key set `v`: `Ok` with its position when it
/// is there, `Err` with the position where it would be inserted otherwise.
pub fn search<K: TotalKey>(v: &Vec<K>, k: &K) -> (r: Result<usize, usize>)
    requires
        is_key_set(v@),
    ensures
        match r {
            Ok(i) => i < v.len() && v@[i as int]@ == k@,
            Err(i) => {
                &&& i <= v.len()
                &&& forall|j: int| 0 <= j < i ==> K::key_lt(#[trigger] v@[j]@, k@)
                &&& forall|j: int| i <= j < v.len() ==> K::key_lt(k@, #[trigger] v@[j]@)
            },
        },
        (r is Ok) == key_set(v@).contains(k@),
{
    let ghost s = views(v@);
    let mut lo: usize = 0;
    let mut hi: usize = v.len();
    while lo < hi
        invariant
            s == views(v@),
            strictly_sorted::<K>(s),
            lo <= hi <= v.len(),
            forall|j: int| 0 <= j < lo ==> K::key_lt(#[trigger] v@[j]@, k@),
            forall|j: int| hi <= j < v.len() ==> K::key_lt(k@, #[trigger] v@[j]@),
        decreases hi - lo,
    {
        let mid: usize = lo + (hi - lo) / 2;
        match v[mid].order_with(k) {
            KeyOrder::Less => {
                assert forall|j: int| 0 <= j < mid + 1 implies K::key_lt(#[trigger] v@[j]@, k@) by {
                    if j < mid {
                        assert(s[j] == v@[j]@ && s[mid as int] == v@[mid as int]@);
                        K::lemma_key_order(v@[j]@, v@[mid as int]@, k@);
                    }
                }
                lo = mid + 1;
            },
            KeyOrder::Equal => {
                proof {
                    assert(s[mid as int] == v@[mid as int]@);
                }
                return Ok(mid);
            },
            KeyOrder::Greater => {
                assert forall|j: int| mid <= j < v.len() implies K::key_lt(k@, #[trigger] v@[j]@) by {
                    if j > mid {
                        assert(s[j] == v@[j]@ && s[mid as int] == v@[mid as int]@);
                        K::lemma_key_order(k@, v@[mid as int]@, v@[j]@);
                    }
                }
                hi = mid;
            },
        }
    }
    proof {
        if key_set(v@).contains(k@) {
            let j = choose|j: int| 0 <= j < s.len() && s[j] == k@;
            assert(s[j] == v@[j]@);
            K::lemma_key_order(k@, k@, k@);
            assert(false);
        }
    }
    Err(lo)
}

/// Inserts `k` into the key set `v`; returns whether it was absent.
pub fn insert_key<K: TotalKey>(v: &mut Vec<K>, k: K) -> (r: bool)
    requires
        is_key_set(old(v)@),
    ensures
        is_key_set(final(v)@),
        key_set(final(v)@) == key_set(old(v)@).insert(k@),
        r == !key_set(old(v)@).contains(k@),
        !r ==> final(v)@ == old(v)@,
        forall|j: int| 0 <= j < final(v)@.len() ==> final(v)@[j] == k || old(v)@.contains(#[trigger] final(v)@[j]),
{
    match search(v, &k) {
        Ok(_) => {
            proof {
                assert(key_set(old(v)@).insert(k@) =~= key_set(old(v)@));
            }
            false
        },
        Err(i) => {
            let ghost kv = k@;
            let ghost old_s = views(old(v)@);
            let ghost kk = k;
            v.insert(i, k);
            proof {
                assert forall|j: int| 0 <= j < v@.len() implies v@[j] == kk || old(v)@.contains(#[trigger] v@[j]) by {
                    if j < i {
                        assert(old(v)@[j] == v@[j]);
                    } else if j > i {
                        assert(old(v)@[j - 1] == v@[j]);
                    }
                }
                let s = views(v@);
                assert(s =~= old_s.insert(i as int, kv));
                assert forall|a: int, b: int| 0 <= a < b < s.len() implies K::key_lt(
                    #[trigger] s[a],
                    #[trigger] s[b],
                ) by {
                    if b < i {
                        assert(old_s[a] == old(v)@[a]@ && old_s[b] == old(v)@[b]@);
                    } else if b == i {
                        assert(old_s[a] == old(v)@[a]@);
                    } else if a == i {
                        assert(old_s[b - 1] == old(v)@[b - 1]@);
                    } else if a < i {
                        assert(old_s[a] == old(v)@[a]@);
                        assert(old_s[b - 1] == old(v)@[b - 1]@);
                        K::lemma_key_order(s[a], kv, s[b]);
                    } else {
                        assert(old_s[a - 1] == old(v)@[a - 1]@);
                        assert(old_s[b - 1] == old(v)@[b - 1]@);
                    }
                }
                assert forall|x: K::V| #[trigger] s.to_set().contains(x) == old_s.to_set().insert(
                    kv,
                ).contains(x) by {
                    if s.to_set().contains(x) {
                        let j = choose|j: int| 0 <= j < s.len() && s[j] == x;
                        if j < i {
                            assert(old_s[j] == x);
                        } else if j > i {
                            assert(old_s[j - 1] == x);
                        }
                    }
                    if old_s.to_set().contains(x) {
                        let j = choose|j: int| 0 <= j < old_s.len() && old_s[j] == x;
                        if j < i {
                            assert(s[j] == x);
                        } else {
                            assert(s[j + 1] == x);
                        }
                    }
                    if x == kv {
                        assert(s[i as int] == x);
                    }
                }
                assert(s.to_set() =~= old_s.to_set().insert(kv));
            }
            true
        },
    }
}

/// Whether the key set `v` holds `k`.
pub fn contains_key<K: TotalKey>(v: &Vec<K>, k: &K) -> (r: bool)
    requires
        is_key_set(v@),
    ensures
        r == key_set(v@).contains(k@),
{
    match search(v, k) {
        Ok(_) => true,
        Err(_) => false,
    }
}

} // verus!
