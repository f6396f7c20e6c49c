//! The queue of a best-first search: the subtrees that wait, the nearest
//! first.
use vstd::multiset::group_multiset_axioms;
use vstd::prelude::*;
use vstd::seq_lib::{to_multiset_build, to_multiset_contains, to_multiset_update};
use crate::bvt::{nodes_under, Node};
use crate::scalar::Scalar;

verus! {

/// A subtree that waits to be searched, with the distance at which the ray
/// enters its box.
#[derive(Clone, Copy, Debug)]
pub struct Pending {
    pub cost: Scalar,
    pub node: usize,
}

/// The nodes in all the subtrees that wait.
pub open spec fn pending_weight(nodes: Seq<Node>, queue: Seq<Pending>) -> nat
    decreases queue.len(),
{
    if queue.len() == 0 {
        0
    } else {
        pending_weight(nodes, queue.drop_last()) + nodes_under(nodes, queue.last().node as int)
    }
}

/// Every entry but the first is no nearer than the entry at half its place:
/// the entries are a binary heap.
pub open spec fn is_heap(entries: Seq<Pending>) -> bool {
    forall|i: int| 0 < i < entries.len() ==> entries[(i - 1) / 2].cost@ <= (#[trigger] entries[i]).cost@
}

/// `after` is `before` with the entries at `a` and `b` exchanged.
pub open spec fn exchanged(before: Seq<Pending>, after: Seq<Pending>, a: int, b: int) -> bool {
    after == before.update(a, before[b]).update(b, before[a])
}

/// Putting another entry in the place of one changes the weight by the
/// difference of the two.
pub proof fn weight_after_update(nodes: Seq<Node>, queue: Seq<Pending>, m: int, e: Pending)
    requires
        0 <= m < queue.len(),
    ensures
        pending_weight(nodes, queue.update(m, e)) + nodes_under(nodes, queue[m].node as int)
            == pending_weight(nodes, queue) + nodes_under(nodes, e.node as int),
    decreases queue.len(),
{
    let updated = queue.update(m, e);
    if m == queue.len() - 1 {
        assert(updated.drop_last() =~= queue.drop_last());
    } else {
        assert(updated.drop_last() =~= queue.drop_last().update(m, e));
        weight_after_update(nodes, queue.drop_last(), m, e);
    }
}

/// Exchanging two entries leaves the queue with the entries and the weight
/// it had.
pub proof fn exchange_keeps_entries(before: Seq<Pending>, after: Seq<Pending>, a: int, b: int)
    requires
        0 <= a < before.len(),
        0 <= b < before.len(),
        exchanged(before, after, a, b),
    ensures
        after.len() == before.len(),
        after.to_multiset() == before.to_multiset(),
        forall|x: Pending|
            #![trigger after.contains(x)]
            #![trigger before.contains(x)]
            after.contains(x) <==> before.contains(x),
        forall|nodes: Seq<Node>|
            #[trigger] pending_weight(nodes, after) == pending_weight(nodes, before),
{
    assert(after.to_multiset() =~= before.to_multiset()) by {
        broadcast use group_multiset_axioms;

        let half = before.update(a, before[b]);
        to_multiset_update(before, a, before[b]);
        to_multiset_update(half, b, before[a]);
        to_multiset_contains(before, before[a]);
        to_multiset_contains(before, before[b]);
        assert(before.contains(before[a]));
        assert(before.contains(before[b]));
    }
    assert forall|x: Pending| after.contains(x) <==> before.contains(x) by {
        if before.contains(x) {
            let k = choose|k: int| 0 <= k < before.len() && before[k] == x;
            let to = if k == a {
                b
            } else if k == b {
                a
            } else {
                k
            };
            assert(after[to] == x);
        }
        if after.contains(x) {
            let k = choose|k: int| 0 <= k < after.len() && after[k] == x;
            let from = if k == a {
                b
            } else if k == b {
                a
            } else {
                k
            };
            assert(before[from] == x);
        }
    }
    assert forall|nodes: Seq<Node>|
        #[trigger] pending_weight(nodes, after) == pending_weight(nodes, before) by {
        let half = before.update(a, before[b]);
        weight_after_update(nodes, before, a, before[b]);
        weight_after_update(nodes, half, b, before[a]);
    }
}

/// In a heap no entry is nearer than the first.
pub proof fn first_is_nearest(entries: Seq<Pending>, i: int)
    requires
        is_heap(entries),
        0 <= i < entries.len(),
    ensures
        entries[0].cost@ <= entries[i].cost@,
    decreases i,
{
    if i > 0 {
        first_is_nearest(entries, (i - 1) / 2);
        assert(entries[(i - 1) / 2].cost@ <= entries[i].cost@);
    }
}

/// A queue of pending subtrees, kept as a binary heap.
pub struct Queue {
    pub entries: Vec<Pending>,
}

impl Queue {
    /// The entries, as they lie in the heap.
    pub open spec fn view(&self) -> Seq<Pending> {
        self.entries@
    }

    /// The entries are a binary heap.
    pub closed spec fn wf(&self) -> bool {
        is_heap(self.entries@)
    }

    /// The empty queue.
    pub fn new() -> (queue: Queue)
        ensures
            queue.wf(),
            queue@.len() == 0,
    {
        Queue { entries: Vec::new() }
    }

    /// The number of entries.
    pub fn len(&self) -> (n: usize)
        ensures
            n == self@.len(),
    {
        self.entries.len()
    }

    fn exchange(&mut self, a: usize, b: usize)
        requires
            a < old(self)@.len(),
            b < old(self)@.len(),
        ensures
            exchanged(old(self)@, final(self)@, a as int, b as int),
            final(self)@.len() == old(self)@.len(),
    {
        let first: Pending = self.entries[a];
        let second: Pending = self.entries[b];
        self.entries.set(a, second);
        self.entries.set(b, first);
    }

    /// Adds an entry.
    pub fn push(&mut self, entry: Pending)
        requires
            old(self).wf(),
        ensures
            final(self).wf(),
            final(self)@.len() == old(self)@.len() + 1,
            final(self)@.to_multiset() == old(self)@.to_multiset().insert(entry),
            forall|x: Pending|
                #![trigger final(self)@.contains(x)]
                #![trigger old(self)@.contains(x)]
                final(self)@.contains(x) <==> (old(self)@.contains(x) || x == entry),
            forall|nodes: Seq<Node>|
                #[trigger] pending_weight(nodes, final(self)@) == pending_weight(
                    nodes,
                    old(self)@,
                ) + nodes_under(nodes, entry.node as int),
    {
        self.entries.push(entry);
        let ghost pushed = self@;
        proof {
            assert(pushed.drop_last() =~= old(self)@);
            assert(pushed == old(self)@.push(entry));
            to_multiset_build(old(self)@, entry);
            assert forall|x: Pending| pushed.contains(x) <==> (old(self)@.contains(x) || x
                == entry) by {
                if old(self)@.contains(x) {
                    let k = choose|k: int| 0 <= k < old(self)@.len() && old(self)@[k] == x;
                    assert(pushed[k] == x);
                }
                if x == entry {
                    assert(pushed[pushed.len() - 1] == x);
                }
            }
        }
        let mut j: usize = self.entries.len() - 1;
        while j > 0 && self.entries[j].cost.lt(&self.entries[(j - 1) / 2].cost)
            invariant
                j < self@.len(),
                self@.len() == pushed.len(),
                pushed.len() == old(self)@.len() + 1,
                pushed.drop_last() == old(self)@,
                pushed.to_multiset() == old(self)@.to_multiset().insert(entry),
                self@.to_multiset() == pushed.to_multiset(),
                pushed.last() == entry,
                forall|x: Pending|
                    #![trigger pushed.contains(x)]
                    #![trigger old(self)@.contains(x)]
                    pushed.contains(x) <==> (old(self)@.contains(x) || x == entry),
                forall|x: Pending|
                    #![trigger self@.contains(x)]
                    #![trigger pushed.contains(x)]
                    self@.contains(x) <==> pushed.contains(x),
                forall|nodes: Seq<Node>|
                    #[trigger] pending_weight(nodes, self@) == pending_weight(nodes, pushed),
                forall|i: int|
                    0 < i < self@.len() && i != j ==> self@[(i - 1) / 2].cost@ <= (
                    #[trigger] self@[i]).cost@,
                forall|i: int|
                    0 < i < self@.len() && (i - 1) / 2 == j && j > 0 ==> self@[(j - 1) / 2].cost@
                        <= (#[trigger] self@[i]).cost@,
            decreases j,
        {
            let parent: usize = (j - 1) / 2;
            let ghost before = self@;
            self.exchange(j, parent);
            proof {
                exchange_keeps_entries(before, self@, j as int, parent as int);
            }
            j = parent;
        }
    }

    /// Takes out an entry than which no entry is nearer; `None` from an
    /// empty queue.
    pub fn pop(&mut self) -> (nearest: Option<Pending>)
        requires
            old(self).wf(),
        ensures
            final(self).wf(),
            nearest.is_none() <==> old(self)@.len() == 0,
            nearest.is_none() ==> final(self)@ == old(self)@,
            nearest matches Some(m) ==> {
                &&& old(self)@.contains(m)
                &&& final(self)@.len() == old(self)@.len() - 1
                &&& old(self)@.to_multiset() == final(self)@.to_multiset().insert(m)
                &&& forall|x: Pending| old(self)@.contains(x) ==> m.cost@ <= x.cost@
                &&& forall|x: Pending| final(self)@.contains(x) ==> old(self)@.contains(x)
                &&& forall|x: Pending| old(self)@.contains(x) ==> x == m || final(self)@.contains(x)
                &&& forall|nodes: Seq<Node>|
                    #[trigger] pending_weight(nodes, final(self)@) + nodes_under(
                        nodes,
                        m.node as int,
                    ) == pending_weight(nodes, old(self)@)
            },
    {
        if self.entries.len() == 0 {
            return None;
        }
        let nearest: Pending = self.entries.swap_remove(0);
        let ghost removed = self@;
        proof {
            let before = old(self)@;
            assert(before[0] == nearest);
            assert(before.to_multiset() =~= removed.to_multiset().insert(nearest)) by {
                broadcast use group_multiset_axioms;

                let moved = before.update(0, before.last());
                to_multiset_update(before, 0, before.last());
                assert(moved =~= removed.push(before.last()));
                to_multiset_build(removed, before.last());
                to_multiset_contains(before, before[0]);
                assert(before.contains(before[0]));
                assert forall|x: Pending|
                    before.to_multiset().count(x) == removed.to_multiset().insert(nearest).count(
                        x,
                    ) by {
                    assert(moved.to_multiset().count(x) == removed.to_multiset().insert(
                        before.last(),
                    ).count(x));
                    assert(moved.to_multiset().count(x) == before.to_multiset().insert(
                        before.last(),
                    ).remove(before[0]).count(x));
                }
            }
            assert forall|x: Pending| before.contains(x) implies nearest.cost@ <= x.cost@ by {
                let k = choose|k: int| 0 <= k < before.len() && before[k] == x;
                first_is_nearest(before, k);
            }
            assert forall|x: Pending| removed.contains(x) implies before.contains(x) by {
                let k = choose|k: int| 0 <= k < removed.len() && removed[k] == x;
                if k == 0 {
                    assert(before[before.len() - 1] == x);
                } else {
                    assert(before[k] == x);
                }
            }
            assert forall|x: Pending| before.contains(x) implies x == nearest || removed.contains(
                x,
            ) by {
                let k = choose|k: int| 0 <= k < before.len() && before[k] == x;
                if k == 0 {
                } else if k == before.len() - 1 {
                    assert(removed[0] == x);
                } else {
                    assert(removed[k] == x);
                }
            }
            assert forall|nodes: Seq<Node>|
                #[trigger] pending_weight(nodes, removed) + nodes_under(
                    nodes,
                    nearest.node as int,
                ) == pending_weight(nodes, before) by {
                weight_after_update(nodes, before, 0, before.last());
            }
            assert forall|i: int| 0 < i < removed.len() && (i - 1) / 2 != 0 implies removed[(i
                - 1) / 2].cost@ <= (#[trigger] removed[i]).cost@ by {
                assert(before[(i - 1) / 2].cost@ <= before[i].cost@);
            }
        }
        let mut j: usize = 0;
        let mut settled: bool = false;
        while !settled
            invariant
                self@.len() == removed.len(),
                self@.to_multiset() == removed.to_multiset(),
                old(self)@.to_multiset() == removed.to_multiset().insert(nearest),
                j < self@.len() || self@.len() == 0,
                forall|x: Pending|
                    #![trigger self@.contains(x)]
                    #![trigger removed.contains(x)]
                    self@.contains(x) <==> removed.contains(x),
                forall|nodes: Seq<Node>|
                    #[trigger] pending_weight(nodes, self@) == pending_weight(nodes, removed),
                forall|i: int|
                    0 < i < self@.len() && (i - 1) / 2 != j ==> self@[(i - 1) / 2].cost@ <= (
                    #[trigger] self@[i]).cost@,
                forall|i: int|
                    0 < i < self@.len() && (i - 1) / 2 == j && j > 0 ==> self@[(j - 1) / 2].cost@
                        <= (#[trigger] self@[i]).cost@,
                settled ==> is_heap(self@),
            decreases (if settled { 0int } else { 1int }), self@.len() - j,
        {
            let n: usize = self.entries.len();
            if j >= n / 2 {
                settled = true;
            } else {
                let left: usize = 2 * j + 1;
                let right: usize = left + 1;
                let child: usize = if right < n && self.entries[right].cost.lt(
                    &self.entries[left].cost,
                ) {
                    right
                } else {
                    left
                };
                if self.entries[child].cost.lt(&self.entries[j].cost) {
                    let ghost before = self@;
                    self.exchange(j, child);
                    proof {
                        exchange_keeps_entries(before, self@, j as int, child as int);
                        assert(j < child < n);
                    }
                    j = child;
                } else {
                    settled = true;
                }
            }
        }
        Some(nearest)
    }
}

} // verus!
