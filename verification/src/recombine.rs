//! Recombination moves between complete tilings: two tiles are merged and
//! split again in another way.

use vstd::prelude::*;
use crate::node::{Node, flip, add_fits, spec_add};
use crate::region::Region;
use crate::lattice::{Graph, node_index, lemma_node_index};
use crate::recomb::{RecombTable, RecombEntry, shift, shift_seq, shift_fits};
use crate::ordset::{key_set, views, is_key_set};
use crate::sorting::strictly_sorted_nodes;
use crate::tiling::{Tiling, TilingView, paint_prefix, normalized, color_count, count_colored, lemma_count_colored_bound};
use crate::enumerate::{renumbered, all_of_graph};

verus! {

/// Every split in the table covers its key: the key's nodes are those of
/// the two parts.
pub open spec fn splits_cover(entries: Set<RecombEntry>) -> bool {
    forall|e: RecombEntry| #[trigger] entries.contains(e) ==> e.0.to_set() == e.1.0.to_set() + e.1.1.to_set()
}

/// The node `-o`.
pub open spec fn negated(o: Node) -> Node {
    ((-o.0) as i8, (-o.1) as i8)
}

/// The tiling `t` with the parts of the split `p`, translated by `o`,
/// painted with the colors `c1` and `c2`, then renumbered.
pub open spec fn repainted(g: Seq<Node>, t: TilingView, o: Node, c1: u8, c2: u8, p: (Seq<Node>, Seq<Node>)) -> TilingView {
    let s1 = shift_seq(o, p.0);
    let s2 = shift_seq(o, p.1);
    renumbered(paint_prefix(g, paint_prefix(g, t, s1, c1, s1.len()), s2, c2, s2.len()))
}

/// The recombinations of the tiles `r1` and `r2` of `t`: their union, moved
/// so that the first node of `r1` is at the origin, is looked up in the
/// table, and each split found is painted back in the colors of `r1` and
/// `r2`.
pub open spec fn spec_try_recombine(g: Seq<Node>, t: TilingView, entries: Set<RecombEntry>, r1: Seq<Node>, r2: Seq<Node>) -> Set<TilingView> {
    let o = r1[0];
    let c1 = t.0[node_index(g, r1[0]) as int]->0;
    let c2 = t.0[node_index(g, r2[0]) as int]->0;
    let key = shift_seq(negated(o), r1).to_set() + shift_seq(negated(o), r2).to_set();
    Set::new(|t2: TilingView| exists|k: Seq<Node>, p: (Seq<Node>, Seq<Node>)| strictly_sorted_nodes(k) && k.to_set() == key
        && #[trigger] entries.contains((k, p)) && t2 == repainted(g, t, o, c1, c2, p))
}

impl<'g> Tiling<'g> {
    /// Recombines the tiles `r1` and `r2` of this tiling (the corresponding
    /// regions must be adjacent): every other way of splitting their union
    /// into two tiles, as found in the table, with the colors of `r1` and
    /// `r2` kept and the colors renumbered.
    pub fn try_recombine(&self, recomb: &RecombTable, r1: &Region, r2: &Region) -> (res: Vec<Tiling<'g>>)
        requires
            self.wf(),
            self.nodes().len() <= 254,
            recomb.wf(),
            splits_cover(recomb.entries()),
            r1.wf(),
            r2.wf(),
            r1@.len() > 0,
            r2@.len() > 0,
            forall|i: int| 0 <= i < r1@.len() ==> self.nodes().contains(#[trigger] r1@[i]),
            forall|i: int| 0 <= i < r2@.len() ==> self.nodes().contains(#[trigger] r2@[i]),
            self@.0[self.index(r1@[0])] is Some,
            self@.0[self.index(r2@[0])] is Some,
            r1@[0].0 > i8::MIN,
            r1@[0].1 > i8::MIN,
            shift_fits(negated(r1@[0]), r1@),
            shift_fits(negated(r1@[0]), r2@),
        ensures
            all_of_graph(res@, self.nodes()),
            views(res@).to_set() == spec_try_recombine(self.nodes(), self@, recomb.entries(), r1@, r2@),
    {
        proof {
            self.lemma_wf();
            self.lemma_graph();
        }
        let ghost g = self.nodes();
        let o = *r1.first().unwrap();
        let c1 = self.color(&o).unwrap();
        let c2 = self.color(r2.first().unwrap()).unwrap();
        let fo = flip(o);
        proof {
            assert(fo == negated(o));
        }
        let mut combined = shift(fo, r1);
        let mut second = shift(fo, r2);
        combined.append(&mut second);
        let ghost key = shift_seq(negated(o), r1@).to_set() + shift_seq(negated(o), r2@).to_set();
        let mut res: Vec<Tiling<'g>> = Vec::new();
        match recomb.get(&combined) {
            None => {
                proof {
                    assert(spec_try_recombine(g, self@, recomb.entries(), r1@, r2@) =~= Set::<TilingView>::empty()) by {
                        assert forall|t2: TilingView| !#[trigger] spec_try_recombine(g, self@, recomb.entries(), r1@, r2@).contains(t2) by {
                            if spec_try_recombine(g, self@, recomb.entries(), r1@, r2@).contains(t2) {
                                let (k, p) = choose|k: Seq<Node>, p: (Seq<Node>, Seq<Node>)| strictly_sorted_nodes(k) && k.to_set() == key
                                    && #[trigger] recomb.entries().contains((k, p)) && t2 == repainted(g, self@, o, c1@, c2@, p);
                                crate::sorting::lemma_strictly_sorted_nodes_unique(k, combined@);
                            }
                        }
                    }
                    assert(views(res@).to_set() =~= Set::<TilingView>::empty());
                }
            },
            Some(splits) => {
                let mut i: usize = 0;
                while i < splits.len()
                    invariant
                        i <= splits@.len(),
                        self.wf(),
                        self.nodes().len() <= 254,
                        g == self.nodes(),
                        g == self.nodes(),
                        c1@ == self@.0[self.index(r1@[0])]->0,
                        c2@ == self@.0[self.index(r2@[0])]->0,
                        c1@ != 0,
                        c2@ != 0,
                        o == r1@[0],
                        o.0 > i8::MIN,
                        o.1 > i8::MIN,
                        strictly_sorted_nodes(combined@),
                        combined@.to_set() == key,
                        key == shift_seq(negated(o), r1@).to_set() + shift_seq(negated(o), r2@).to_set(),
                        splits_cover(recomb.entries()),
                        forall|j: int| 0 <= j < r1@.len() ==> self.nodes().contains(#[trigger] r1@[j]),
                        forall|j: int| 0 <= j < r2@.len() ==> self.nodes().contains(#[trigger] r2@[j]),
                        shift_fits(negated(o), r1@),
                        shift_fits(negated(o), r2@),
                        forall|j: int| 0 <= j < splits@.len() ==> (#[trigger] splits@[j]).0.wf() && splits@[j].1.wf(),
                        forall|p: (Seq<Node>, Seq<Node>)| #[trigger] key_set(splits@).contains(p) == recomb.entries().contains((combined@, p)),
                        all_of_graph(res@, g),
                        views(res@).to_set() == views(splits@).subrange(0, i as int).to_set().map(|p: (Seq<Node>, Seq<Node>)| repainted(g, self@, o, c1@, c2@, p)),
                    decreases splits@.len() - i,
                {
                    let (s1, s2) = (&splits[i].0, &splits[i].1);
                    let ghost p = splits@[i as int]@;
                    proof {
                        assert(views(splits@)[i as int] == p);
                        assert(key_set(splits@).contains(p));
                        assert(recomb.entries().contains((combined@, p)));
                        assert(combined@.to_set() == s1@.to_set() + s2@.to_set());
                        lemma_back_in_graph(g, o, r1@, r2@, s1@, key);
                        lemma_back_in_graph(g, o, r1@, r2@, s2@, key);
                    }
                    let p1 = shift(o, s1);
                    let p2 = shift(o, s2);
                    let mut t = self.duplicate();
                    proof {
                        t.lemma_graph();
                        self.lemma_graph();
                        assert(t.nodes() == g);
                    }
                    t.paint(&p1, c1);
                    proof {
                        t.lemma_graph();
                    }
                    t.paint(&p2, c2);
                    proof {
                        t.lemma_wf();
                        t.lemma_graph();
                        assert(t@.0.len() <= 254);
                        lemma_count_colored_bound(t@.0);
                        lemma_color_count_le(t@.0);
                    }
                    t.normalize();
                    let ghost old_res = res@;
                    res.push(t);
                    proof {
                        assert(t@ == repainted(g, self@, o, c1@, c2@, p));
                        let f = |q: (Seq<Node>, Seq<Node>)| repainted(g, self@, o, c1@, c2@, q);
                        assert(views(splits@).subrange(0, i + 1) == views(splits@).subrange(0, i as int).push(p));
                        views(splits@).subrange(0, i as int).lemma_push_to_set_commute(p);
                        assert(views(res@) == views(old_res).push(t@));
                        views(old_res).lemma_push_to_set_commute(t@);
                        views(splits@).subrange(0, i as int).to_set().lemma_set_map_insert_commute(p, f);
                        assert forall|j: int| 0 <= j < res@.len() implies (#[trigger] res@[j]).wf() && res@[j].nodes() == g by {
                            if j < old_res.len() {
                                assert(res@[j] == old_res[j]);
                            }
                        }
                    }
                    i = i + 1;
                }
                proof {
                    assert(views(splits@).subrange(0, splits@.len() as int) == views(splits@));
                    let f = |q: (Seq<Node>, Seq<Node>)| repainted(g, self@, o, c1@, c2@, q);
                    assert(views(res@).to_set() =~= spec_try_recombine(g, self@, recomb.entries(), r1@, r2@)) by {
                        assert forall|t2: TilingView| #[trigger] views(res@).to_set().contains(t2) == spec_try_recombine(g, self@, recomb.entries(), r1@, r2@).contains(t2) by {
                            if views(res@).to_set().contains(t2) {
                                let q = choose|q: (Seq<Node>, Seq<Node>)| views(splits@).to_set().contains(q) && f(q) == t2;
                                assert(key_set(splits@).contains(q));
                                assert(recomb.entries().contains((combined@, q)));
                            }
                            if spec_try_recombine(g, self@, recomb.entries(), r1@, r2@).contains(t2) {
                                let (k, q) = choose|k: Seq<Node>, q: (Seq<Node>, Seq<Node>)| strictly_sorted_nodes(k) && k.to_set() == key
                                    && #[trigger] recomb.entries().contains((k, q)) && t2 == repainted(g, self@, o, c1@, c2@, q);
                                crate::sorting::lemma_strictly_sorted_nodes_unique(k, combined@);
                                assert(key_set(splits@).contains(q));
                                assert(views(splits@).to_set().map(f).contains(f(q)));
                            }
                        }
                    }
                }
            },
        }
        res
    }
}

/// A part of a split of the union of `r1` and `r2` moved by `-o`, moved back
/// by `o`, lies in the graph.
pub proof fn lemma_back_in_graph(g: Seq<Node>, o: Node, r1: Seq<Node>, r2: Seq<Node>, s: Seq<Node>, key: Set<Node>)
    requires
        key == shift_seq(negated(o), r1).to_set() + shift_seq(negated(o), r2).to_set(),
        s.to_set().subset_of(key),
        forall|j: int| 0 <= j < r1.len() ==> g.contains(#[trigger] r1[j]),
        forall|j: int| 0 <= j < r2.len() ==> g.contains(#[trigger] r2[j]),
        shift_fits(negated(o), r1),
        shift_fits(negated(o), r2),
        o.0 > i8::MIN,
        o.1 > i8::MIN,
    ensures
        shift_fits(o, s),
        forall|j: int| 0 <= j < s.len() ==> g.contains(#[trigger] shift_seq(o, s)[j]),
        forall|j: int| 0 <= j < s.len() ==> r1.contains(#[trigger] shift_seq(o, s)[j]) || r2.contains(shift_seq(o, s)[j]),
{
    assert(negated(o).0 == -o.0 && negated(o).1 == -o.1);
    assert forall|j: int| 0 <= j < s.len() implies add_fits(#[trigger] s[j], o) && g.contains(spec_add(s[j], o))
        && (r1.contains(spec_add(s[j], o)) || r2.contains(spec_add(s[j], o))) by {
        assert(s.to_set().contains(s[j]));
        assert(key.contains(s[j]));
        if shift_seq(negated(o), r1).to_set().contains(s[j]) {
            let l = choose|l: int| 0 <= l < shift_seq(negated(o), r1).len() && shift_seq(negated(o), r1)[l] == s[j];
            assert(add_fits(r1[l], negated(o)));
            assert(spec_add(s[j], o) == r1[l]);
        } else {
            let l = choose|l: int| 0 <= l < shift_seq(negated(o), r2).len() && shift_seq(negated(o), r2)[l] == s[j];
            assert(add_fits(r2[l], negated(o)));
            assert(spec_add(s[j], o) == r2[l]);
        }
    }
}

/// The number of colors is at most the number of colored nodes.
pub proof fn lemma_color_count_le(s: crate::tiling::Coloring)
    ensures
        color_count(s) <= count_colored(s),
{
    crate::enumerate::lemma_norm_count(s, s.len());
    assert(s.subrange(0, s.len() as int) == s);
    crate::enumerate::lemma_norm_next_pos(s, s.len());
}

} // verus!
