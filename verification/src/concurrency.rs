//! The shared worklist of a search run by worker threads: tasks ordered by
//! cost, and the decisions of handing out a task, waiting for one, and
//! ending the search.  The threads, the lock and the condition variable
//! around it belong to the program that runs the search.

use vstd::prelude::*;
use vstd::multiset::Multiset;
use crate::ordset::{TotalKey, key_set, is_key_set, insert_key, contains_key};

verus! {

broadcast use vstd::seq_lib::group_to_multiset_ensures;

/// A piece of data with a cost; the tasks of least cost come out of a
/// worklist first.
pub struct WithCost<T>(pub T, pub isize);

/// A task handed to a worker thread.
pub enum Task<T> {
    /// Another thread has reached the end of the search.
    Done,
    /// A task to process.
    Todo(T),
}

/// A task with its cost, as values.
pub open spec fn item<T: View>(w: WithCost<T>) -> (T::V, int) {
    (w.0@, w.1 as int)
}

/// `a` comes out of a worklist before `b`: it costs less.  Tasks of equal
/// cost come out in either order.
pub open spec fn comes_before<T: TotalKey>(a: (T::V, int), b: (T::V, int)) -> bool {
    a.1 < b.1
}

impl<T: TotalKey> WithCost<T> {
    /// Whether `self` is handed out ahead of `other`.
    pub fn before(&self, other: &Self) -> (r: bool)
        ensures
            r == comes_before::<T>(item(*self), item(*other)),
    {
        self.1 < other.1
    }
}

/// What a worker that asks for a task is to do.
pub enum PopStep<T> {
    /// The search is over.
    Done,
    /// The task of least cost; the worker skips it if another took the same data.
    Candidate(WithCost<T>),
    /// Wait for another worker to add tasks, then ask again.
    Wait,
}

/// The state of a worklist shared by `workers` threads: the tasks not yet
/// handed out, whether the search is over, and how many workers wait for a
/// task.
pub struct Worklist<T> {
    heap: Vec<WithCost<T>>,
    done: bool,
    waiting: usize,
    workers: usize,
}

impl<T: TotalKey> Worklist<T> {
    /// The tasks not yet handed out, with their costs.
    pub closed spec fn items(&self) -> Multiset<(T::V, int)> {
        self.heap@.map_values(|w: WithCost<T>| item(w)).to_multiset()
    }

    /// The search is over.
    pub closed spec fn is_over(&self) -> bool {
        self.done
    }

    /// The number of workers waiting for a task.
    pub closed spec fn waiting_count(&self) -> nat {
        self.waiting as nat
    }

    /// The number of workers.
    pub closed spec fn worker_count(&self) -> nat {
        self.workers as nat
    }

    /// While the search runs, at least one worker does not wait.
    pub closed spec fn wf(&self) -> bool {
        &&& self.waiting <= self.workers
        &&& !self.done ==> self.waiting < self.workers
    }

    /// A worklist for `workers` threads holding the tasks `xs`.
    pub fn new(xs: Vec<WithCost<T>>, workers: usize) -> (s: Self)
        requires
            workers > 0,
        ensures
            s.wf(),
            s.items() == xs@.map_values(|w: WithCost<T>| item(w)).to_multiset(),
            !s.is_over(),
            s.waiting_count() == 0,
            s.worker_count() == workers,
    {
        Worklist { heap: xs, done: false, waiting: 0, workers }
    }

    /// Adds a task, unless the search is over.
    pub fn push(&mut self, g: WithCost<T>)
        requires
            old(self).wf(),
        ensures
            final(self).wf(),
            final(self).items() == if old(self).is_over() { old(self).items() } else { old(self).items().insert(item(g)) },
            final(self).is_over() == old(self).is_over(),
            final(self).waiting_count() == old(self).waiting_count(),
            final(self).worker_count() == old(self).worker_count(),
    {
        if !self.done {
            let ghost before = self.heap@;
            let ghost gi = item(g);
            self.heap.push(g);
            proof {
                assert(self.heap@.map_values(|w: WithCost<T>| item(w)) =~= before.map_values(|w: WithCost<T>| item(w)).push(gi));
            }
        }
    }

    /// Adds tasks, unless the search is over.
    pub fn push_all(&mut self, gs: Vec<WithCost<T>>)
        requires
            old(self).wf(),
        ensures
            final(self).wf(),
            final(self).items() == if old(self).is_over() { old(self).items() } else {
                old(self).items().add(gs@.map_values(|w: WithCost<T>| item(w)).to_multiset())
            },
            final(self).is_over() == old(self).is_over(),
            final(self).waiting_count() == old(self).waiting_count(),
            final(self).worker_count() == old(self).worker_count(),
    {
        if !self.done {
            let ghost before = self.heap@;
            let ghost all = gs@;
            let mut gs = gs;
            self.heap.append(&mut gs);
            proof {
                let f = |w: WithCost<T>| item(w);
                assert(self.heap@.map_values(f) =~= before.map_values(f) + all.map_values(f));
                vstd::seq_lib::lemma_multiset_commutative(before.map_values(f), all.map_values(f));
            }
        }
    }

    /// The first step of taking a task: the task of least cost if there is
    /// one, else waiting for one, or the end of the search when every worker
    /// would wait.
    pub fn pop_step(&mut self) -> (r: PopStep<T>)
        requires
            old(self).wf(),
        ensures
            final(self).wf(),
            final(self).worker_count() == old(self).worker_count(),
            old(self).is_over() ==> r is Done && *final(self) == *old(self),
            !old(self).is_over() && old(self).items().len() > 0 ==> ({
                &&& r matches PopStep::Candidate(x) && old(self).items().count(item(x)) > 0
                    && final(self).items() == old(self).items().remove(item(x))
                    && forall|y: (T::V, int)| #[trigger] old(self).items().count(y) > 0 ==> !comes_before::<T>(y, item(x))
                &&& !final(self).is_over()
                &&& final(self).waiting_count() == old(self).waiting_count()
            }),
            !old(self).is_over() && old(self).items().len() == 0 ==> ({
                &&& final(self).items() == old(self).items()
                &&& final(self).waiting_count() == old(self).waiting_count() + 1
                &&& if old(self).waiting_count() + 1 == old(self).worker_count() {
                    r is Done && final(self).is_over()
                } else {
                    r is Wait && !final(self).is_over()
                }
            }),
    {
        if self.done {
            return PopStep::Done;
        }
        let ghost f = |w: WithCost<T>| item(w);
        if self.heap.len() > 0 {
            let mut best: usize = 0;
            let mut q: usize = 1;
            while q < self.heap.len()
                invariant
                    1 <= q <= self.heap@.len(),
                    best < q,
                    forall|j: int| 0 <= j < q ==> !comes_before::<T>(#[trigger] item(self.heap@[j]), item(self.heap@[best as int])),
                decreases self.heap@.len() - q,
            {
                if self.heap[q].before(&self.heap[best]) {
                    proof {
                        assert forall|j: int| 0 <= j < q + 1 implies !comes_before::<T>(#[trigger] item(self.heap@[j]), item(self.heap@[q as int])) by {
                            if j < q {
                                assert(!comes_before::<T>(item(self.heap@[j]), item(self.heap@[best as int])));
                            }
                        }
                    }
                    best = q;
                }
                q = q + 1;
            }
            let ghost before = self.heap@;
            let x = self.heap.remove(best);
            proof {
                let s = before.map_values(f);
                assert(s[best as int] == item(x));
                assert(self.heap@.map_values(f) =~= s.remove(best as int));
                vstd::seq_lib::to_multiset_remove(s, best as int);
                assert forall|y: (T::V, int)| #[trigger] s.to_multiset().count(y) > 0 implies !comes_before::<T>(y, item(x)) by {
                    assert(s.contains(y));
                    let j = choose|j: int| 0 <= j < s.len() && s[j] == y;
                    assert(item(before[j]) == y);
                }
            }
            return PopStep::Candidate(x);
        }
        proof {
            assert(self.heap@.map_values(f).len() == 0);
        }
        self.waiting = self.waiting + 1;
        if self.waiting == self.workers {
            self.done = true;
            PopStep::Done
        } else {
            PopStep::Wait
        }
    }

    /// Takes the task of least cost whose data is not in `seen`, and adds
    /// its data to `seen`; tasks met on the way whose data is in `seen`
    /// are dropped.  When no task is left, the worker is to wait, or the
    /// search ends when every worker would wait.
    pub fn pop(&mut self, seen: &mut Vec<T>) -> (r: PopStep<T>)
        requires
            old(self).wf(),
            is_key_set(old(seen)@),
        ensures
            final(self).wf(),
            is_key_set(final(seen)@),
            final(self).worker_count() == old(self).worker_count(),
            old(self).is_over() ==> r is Done && *final(self) == *old(self) && final(seen)@ == old(seen)@,
            r matches PopStep::Candidate(x) ==> {
                &&& !old(self).is_over() && !final(self).is_over()
                &&& final(self).waiting_count() == old(self).waiting_count()
                &&& !key_set(old(seen)@).contains(x.0@)
                &&& key_set(final(seen)@) == key_set(old(seen)@).insert(x.0@)
                &&& forall|y: (T::V, int)| #[trigger] old(self).items().count(y) > 0 && comes_before::<T>(y, item(x))
                    ==> key_set(old(seen)@).contains(y.0)
                &&& forall|y: (T::V, int)| comes_before::<T>(y, item(x)) ==> #[trigger] final(self).items().count(y) == 0
                &&& exists|d: Multiset<(T::V, int)>| #[trigger] final(self).items().add(d) == old(self).items()
                    && d.count(item(x)) == 1
                    && forall|y: (T::V, int)| #[trigger] d.count(y) > 0 && y != item(x) ==> key_set(old(seen)@).contains(y.0)
                        && !comes_before::<T>(item(x), y)
            },
            !old(self).is_over() && !(r is Candidate) ==> {
                &&& final(seen)@ == old(seen)@
                &&& final(self).items().len() == 0
                &&& forall|y: (T::V, int)| #[trigger] old(self).items().count(y) > 0 ==> key_set(old(seen)@).contains(y.0)
                &&& final(self).waiting_count() == old(self).waiting_count() + 1
                &&& (r is Done) == (old(self).waiting_count() + 1 == old(self).worker_count())
                &&& (r is Done) == final(self).is_over()
            },
    {
        let ghost items0 = self.items();
        let ghost mut dropped: Multiset<(T::V, int)> = Multiset::empty();
        proof {
            assert(self.items().add(dropped) =~= items0);
        }
        loop
            invariant
                self.wf(),
                self.worker_count() == old(self).worker_count(),
                is_key_set(seen@),
                seen@ == old(seen)@,
                old(self).is_over() ==> *self == *old(self),
                self.is_over() == old(self).is_over(),
                self.waiting_count() == old(self).waiting_count(),
                items0 == old(self).items(),
                self.items().add(dropped) == items0,
                forall|y: (T::V, int)| #[trigger] dropped.count(y) > 0 ==> key_set(seen@).contains(y.0),
                forall|y: (T::V, int), z: (T::V, int)| #[trigger] dropped.count(y) > 0 && #[trigger] self.items().count(z) > 0
                    ==> !comes_before::<T>(z, y),
            decreases self.items().len(),
        {
            let ghost before = self.items();
            let step = self.pop_step();
            match step {
                PopStep::Candidate(x) => {
                    proof {
                        assert(self.items().insert(item(x)) =~= before);
                    }
                    if contains_key(seen, &x.0) {
                        proof {
                            let d0 = dropped;
                            dropped = dropped.insert(item(x));
                            assert(self.items().add(dropped) =~= items0);
                            assert forall|y: (T::V, int), z: (T::V, int)| #[trigger] dropped.count(y) > 0 && #[trigger] self.items().count(z) > 0
                                implies !comes_before::<T>(z, y) by {
                                assert(before.count(z) > 0);
                                if y != item(x) {
                                    assert(d0.count(y) > 0);
                                }
                            }
                        }
                    } else {
                        let k = x.0.copy_key();
                        insert_key(seen, k);
                        proof {
                            let d = dropped.insert(item(x));
                            assert(self.items().add(d) =~= items0);
                            assert(dropped.count(item(x)) == 0);
                            assert forall|y: (T::V, int)| #[trigger] items0.count(y) > 0 && comes_before::<T>(y, item(x))
                                implies key_set(old(seen)@).contains(y.0) by {
                                if before.count(y) > 0 {
                                    assert(!comes_before::<T>(y, item(x)));
                                } else {
                                    assert(dropped.count(y) > 0);
                                }
                            }
                            assert forall|y: (T::V, int)| #[trigger] d.count(y) > 0 && y != item(x) implies key_set(old(seen)@).contains(y.0)
                                && !comes_before::<T>(item(x), y) by {
                                assert(dropped.count(y) > 0);
                                assert(before.count(item(x)) > 0);
                                assert(!comes_before::<T>(item(x), y));
                            }
                        }
                        return PopStep::Candidate(x);
                    }
                },
                _ => {
                    proof {
                        if !old(self).is_over() {
                            assert(before.len() == 0);
                            assert forall|y: (T::V, int)| #[trigger] items0.count(y) > 0 implies key_set(old(seen)@).contains(y.0) by {
                                vstd::multiset::axiom_count_le_len(before, y);
                                assert(dropped.count(y) > 0);
                            }
                        }
                    }
                    return step;
                },
            }
        }
    }

    /// A worker that waited has been woken up.
    pub fn woken(&mut self)
        requires
            old(self).wf(),
            old(self).waiting_count() > 0,
        ensures
            final(self).wf(),
            final(self).items() == old(self).items(),
            final(self).is_over() == old(self).is_over(),
            final(self).waiting_count() == old(self).waiting_count() - 1,
            final(self).worker_count() == old(self).worker_count(),
    {
        self.waiting = self.waiting - 1;
    }

    /// Ends the search.
    pub fn done(&mut self)
        requires
            old(self).wf(),
        ensures
            final(self).wf(),
            final(self).is_over(),
            final(self).items() == old(self).items(),
            final(self).waiting_count() == old(self).waiting_count(),
            final(self).worker_count() == old(self).worker_count(),
    {
        self.done = true;
    }

    /// Whether the search is over.
    pub fn is_done(&self) -> (r: bool)
        ensures
            r == self.is_over(),
    {
        self.done
    }

    /// The number of tasks not yet handed out.
    pub fn len(&self) -> (r: usize)
        ensures
            r == self.items().len(),
    {
        proof {
            vstd::seq_lib::to_multiset_len(self.heap@.map_values(|w: WithCost<T>| item(w)));
        }
        self.heap.len()
    }

    /// Whether no task waits to be handed out.
    pub fn is_empty(&self) -> (r: bool)
        ensures
            r == (self.items().len() == 0),
    {
        proof {
            vstd::seq_lib::to_multiset_len(self.heap@.map_values(|w: WithCost<T>| item(w)));
        }
        self.heap.len() == 0
    }
}

/// The seen sets of a run of pops only grow.
proof fn lemma_seen_grows<V>(seen: Seq<Set<V>>, xs: Seq<V>, i: int, j: int)
    requires
        seen.len() == xs.len() + 1,
        forall|k: int| 0 <= k < xs.len() ==> seen[k + 1] == seen[k].insert(#[trigger] xs[k]),
        0 <= i <= j < seen.len(),
    ensures
        seen[i].subset_of(seen[j]),
    decreases j - i,
{
    if i < j {
        lemma_seen_grows(seen, xs, i, j - 1);
        assert(seen[j] == seen[j - 1].insert(xs[j - 1]));
    }
}

/// The payloads handed out after one another by seen sets that each grow
/// by the payload handed out are distinct and new.
proof fn lemma_distinct_additions<V>(seen: Seq<Set<V>>, xs: Seq<V>)
    requires
        seen.len() == xs.len() + 1,
        forall|k: int| 0 <= k < xs.len() ==> !(#[trigger] seen[k]).contains(xs[k]),
        forall|k: int| 0 <= k < xs.len() ==> seen[k + 1] == seen[k].insert(#[trigger] xs[k]),
    ensures
        xs.no_duplicates(),
        forall|k: int| 0 <= k < xs.len() ==> !seen[0].contains(#[trigger] xs[k]) && seen.last().contains(xs[k]),
{
    assert forall|i: int, j: int| 0 <= i < xs.len() && 0 <= j < xs.len() && i != j implies xs[i] != xs[j] by {
        if i < j {
            lemma_seen_grows(seen, xs, i + 1, j);
            assert(seen[i + 1] == seen[i].insert(xs[i]));
            assert(!seen[j].contains(xs[j]));
        } else {
            lemma_seen_grows(seen, xs, j + 1, i);
            assert(seen[j + 1] == seen[j].insert(xs[j]));
            assert(!seen[i].contains(xs[i]));
        }
    }
    assert forall|k: int| 0 <= k < xs.len() implies !seen[0].contains(#[trigger] xs[k]) && seen.last().contains(xs[k]) by {
        lemma_seen_grows(seen, xs, 0, k);
        assert(!seen[k].contains(xs[k]));
        lemma_seen_grows(seen, xs, k + 1, xs.len() as int);
        assert(seen[k + 1] == seen[k].insert(xs[k]));
    }
}

/// Over a run of pops, from any threads, the tasks handed out carry
/// pairwise distinct payloads, none of which was seen before the run, and
/// each of which is seen after it.  `seen[k]` is the seen vector when the
/// `k`-th task is handed out, `seen[k + 1]` after it, and `xs[k]` that
/// task's payload, related as each `pop` that hands out a task states;
/// calls between them leave the seen vector alone.
pub proof fn lemma_handed_out_distinct<T: TotalKey>(seen: Seq<Seq<T>>, xs: Seq<T::V>)
    requires
        seen.len() == xs.len() + 1,
        forall|k: int| 0 <= k < xs.len() ==> !key_set(#[trigger] seen[k]).contains(xs[k]),
        forall|k: int| 0 <= k < xs.len() ==> key_set(seen[k + 1]) == key_set(seen[k]).insert(#[trigger] xs[k]),
    ensures
        xs.no_duplicates(),
        forall|k: int| 0 <= k < xs.len() ==> !key_set(seen[0]).contains(#[trigger] xs[k])
            && key_set(seen.last()).contains(xs[k]),
{
    let sets = Seq::new(seen.len(), |i: int| key_set(seen[i]));
    assert forall|k: int| 0 <= k < xs.len() implies !(#[trigger] sets[k]).contains(xs[k]) by {
        assert(!key_set(seen[k]).contains(xs[k]));
    }
    assert forall|k: int| 0 <= k < xs.len() implies sets[k + 1] == sets[k].insert(#[trigger] xs[k]) by {
        assert(key_set(seen[k + 1]) == key_set(seen[k]).insert(xs[k]));
    }
    lemma_distinct_additions(sets, xs);
    assert(sets.last() == key_set(seen.last()));
}

} // verus!
