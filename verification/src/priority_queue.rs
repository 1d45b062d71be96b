//! A priority queue backed by an unbounded binary max heap.
//!
//! The heap is kept in a vector: the children of the entry at index `i`
//! sit at indices `2 * i + 1` and `2 * i + 2`, and every entry is at
//! most its parent, so the maximum is always at the root.

use vstd::prelude::*;
use vstd::seq_lib::group_to_multiset_ensures;

verus! {

/// Index of the parent of the heap entry at `child` (spec level).
pub open spec fn parent_of(child: int) -> int {
    (child - 1) / 2
}

/// The max-heap ordering: every entry except the root is at most its parent.
pub open spec fn heap_ordered(s: Seq<i64>) -> bool {
    forall|i: int| 1 <= i < s.len() ==> #[trigger] s[i] <= s[parent_of(i)]
}

/// The max-heap ordering everywhere except that the children of the
/// entry at `j` may exceed it.
pub open spec fn heap_ordered_except_below(s: Seq<i64>, j: int) -> bool {
    forall|i: int| 1 <= i < s.len() && parent_of(i) != j ==> #[trigger] s[i] <= s[parent_of(i)]
}

/// The max-heap ordering everywhere except that the entry at `j` may
/// exceed its own parent.
pub open spec fn heap_ordered_except_at(s: Seq<i64>, j: int) -> bool {
    forall|i: int| 1 <= i < s.len() && i != j ==> #[trigger] s[i] <= s[parent_of(i)]
}

/// In a heap-ordered vector every entry is at most the root.
pub proof fn lemma_root_is_max(s: Seq<i64>, k: int)
    requires
        heap_ordered(s),
        0 <= k < s.len(),
    ensures
        s[k] <= s[0],
    decreases k,
{
    if k > 0 {
        assert(s[k] <= s[parent_of(k)]);
        assert(0 <= parent_of(k) < k);
        lemma_root_is_max(s, parent_of(k));
    }
}

/// Overwriting the entry at `i` removes the old value from the heap's
/// multiset of elements and inserts the new one.
proof fn lemma_update_to_multiset(s: Seq<i64>, i: int, x: i64)
    requires
        0 <= i < s.len(),
    ensures
        s.update(i, x).to_multiset() == s.to_multiset().remove(s[i]).insert(x),
{
    broadcast use group_to_multiset_ensures;

    let u = s.update(i, x);
    assert(u.remove(i) =~= s.remove(i));
    assert(u.remove(i).to_multiset() =~= u.to_multiset().remove(u[i]));
    assert(s.remove(i).to_multiset() =~= s.to_multiset().remove(s[i]));
    assert(u.to_multiset().count(x) > 0) by {
        assert(u[i] == x);
        assert(u.contains(x));
    }
    assert(u.to_multiset() =~= s.to_multiset().remove(s[i]).insert(x)) by {
        assert(forall|e: i64| #![auto]
            u.to_multiset().count(e) == s.to_multiset().remove(s[i]).insert(x).count(e)) by {
            assert(forall|e: i64| #![auto]
                u.to_multiset().remove(x).count(e) == s.to_multiset().remove(s[i]).count(e));
        }
    }
}

/// Swapping two entries leaves the heap's multiset of elements unchanged.
proof fn lemma_swap_to_multiset(s: Seq<i64>, a: int, b: int)
    requires
        0 <= a < s.len(),
        0 <= b < s.len(),
    ensures
        s.update(a, s[b]).update(b, s[a]).to_multiset() == s.to_multiset(),
{
    broadcast use group_to_multiset_ensures;

    let s1 = s.update(a, s[b]);
    let s2 = s1.update(b, s[a]);
    if a == b {
        assert(s2 =~= s);
    } else {
        lemma_update_to_multiset(s, a, s[b]);
        lemma_update_to_multiset(s1, b, s[a]);
        assert(s1[b] == s[b]);
        assert(s2.to_multiset() == s.to_multiset().remove(s[a]).insert(s[b]).remove(s[b]).insert(
            s[a],
        ));
        assert(s.to_multiset().count(s[a]) > 0) by {
            assert(s.contains(s[a]));
        }
        assert(s2.to_multiset() =~= s.to_multiset());
    }
}

/// Index of the parent of the heap entry at `child`.
fn parent(child: usize) -> (p: usize)
    requires
        child >= 1,
    ensures
        p == parent_of(child as int),
{
    (child - 1) / 2
}

/// Index of the right child of the heap entry at `parent`.
fn right_ch(parent: usize) -> (c: usize)
    requires
        2 * parent + 2 <= usize::MAX,
    ensures
        c == 2 * parent + 2,
{
    parent * 2 + 2
}

/// Index of the left child of the heap entry at `parent`.
fn left_ch(parent: usize) -> (c: usize)
    requires
        2 * parent + 1 <= usize::MAX,
    ensures
        c == 2 * parent + 1,
{
    parent * 2 + 1
}

/// A priority queue implementation based on an unbounded max heap.
/// The biggest element is readable in `O(1)` time.
#[derive(Debug)]
pub struct PriorityQueue {
    heap: Vec<i64>,
    next_index: usize,
}

impl View for PriorityQueue {
    type V = Seq<i64>;

    closed spec fn view(&self) -> Seq<i64> {
        self.heap@
    }
}

impl PriorityQueue {
    /// Internal invariant: the next free index mirrors the length and
    /// the vector satisfies the max-heap ordering.
    pub closed spec fn wf(&self) -> bool {
        &&& self.next_index == self.heap@.len()
        &&& heap_ordered(self.heap@)
    }

    /// Constructs a new, empty `PriorityQueue`.
    pub fn new() -> (q: PriorityQueue)
        ensures
            q.wf(),
            q@ == Seq::<i64>::empty(),
    {
        PriorityQueue { heap: Vec::new(), next_index: 0 }
    }

    /// Constructs a new, empty `PriorityQueue` able to hold `capacity`
    /// elements without reallocating.
    pub fn with_capacity(capacity: usize) -> (q: PriorityQueue)
        ensures
            q.wf(),
            q@ == Seq::<i64>::empty(),
    {
        PriorityQueue { heap: Vec::with_capacity(capacity), next_index: 0 }
    }

    /// Adds an element while keeping the maximum readable at the root:
    /// the new multiset of elements is the old one plus `elem`.
    pub fn push(&mut self, elem: i64)
        requires
            old(self).wf(),
        ensures
            final(self).wf(),
            final(self)@.len() == old(self)@.len() + 1,
            final(self)@.to_multiset() == old(self)@.to_multiset().insert(elem),
    {
        proof {
            broadcast use group_to_multiset_ensures;
        }
        let mut current = self.next_index;
        self.heap.push(elem);
        self.next_index = self.heap.len();

        loop
            invariant
                self.next_index == self.heap@.len(),
                current < self.heap@.len(),
                self.heap@.len() == old(self)@.len() + 1,
                self.heap@.to_multiset() == old(self)@.to_multiset().insert(elem),
                heap_ordered_except_at(self.heap@, current as int),
                current > 0 ==> forall|i: int|
                    1 <= i < self.heap@.len() && parent_of(i) == current ==> #[trigger] self.heap@[i]
                        <= self.heap@[parent_of(current as int)],
            ensures
                heap_ordered(self.heap@),
                self.heap@.len() == old(self)@.len() + 1,
                self.heap@.to_multiset() == old(self)@.to_multiset().insert(elem),
                self.next_index == self.heap@.len(),
            decreases current,
        {
            if current == 0 {
                break ;
            }
            let p = parent(current);
            let cv = self.heap[current];
            let pv = self.heap[p];
            if cv <= pv {
                break ;
            }
            let ghost pre = self.heap@;
            self.swap(current, p);
            proof {
                lemma_swap_to_multiset(pre, current as int, p as int);
            }
            current = p;
        }
    }

    /// Returns the number of elements in the queue.
    pub fn len(&self) -> (n: usize)
        requires
            self.wf(),
        ensures
            n == self@.len(),
    {
        self.heap.len()
    }

    /// Returns true if there is no element in the queue.
    pub fn is_empty(&self) -> (b: bool)
        requires
            self.wf(),
        ensures
            b == (self@.len() == 0),
    {
        self.heap.is_empty()
    }

    /// Returns a borrow of the biggest element, or `None` exactly when
    /// the queue is empty.
    pub fn peek(&self) -> (r: Option<&i64>)
        requires
            self.wf(),
        ensures
            r is Some <==> self@.len() > 0,
            r matches Some(m) ==> *m == self@[0] && forall|k: int|
                0 <= k < self@.len() ==> #[trigger] self@[k] <= *m,
    {
        if self.heap.is_empty() {
            return None;
        }
        proof {
            assert forall|k: int| 0 <= k < self@.len() implies #[trigger] self@[k] <= self@[0] by {
                lemma_root_is_max(self@, k);
            }
        }
        Some(&self.heap[0])
    }

    /// Removes and returns the biggest element, or `None` exactly when
    /// the queue is empty: the result is at least every element held,
    /// and the rest of the queue is kept.
    pub fn poll(&mut self) -> (r: Option<i64>)
        requires
            old(self).wf(),
        ensures
            final(self).wf(),
            old(self)@.len() == 0 ==> r is None && final(self)@ == old(self)@,
            old(self)@.len() > 0 ==> {
                &&& r == Some(old(self)@[0])
                &&& forall|k: int| 0 <= k < old(self)@.len() ==> #[trigger] old(self)@[k] <= old(
                    self,
                )@[0]
                &&& final(self)@.len() == old(self)@.len() - 1
                &&& final(self)@.to_multiset() == old(self)@.to_multiset().remove(old(self)@[0])
            },
    {
        proof {
            broadcast use group_to_multiset_ensures;
        }
        if self.is_empty() {
            return None;
        }
        proof {
            assert forall|k: int| 0 <= k < self@.len() implies #[trigger] self@[k] <= self@[0] by {
                lemma_root_is_max(self@, k);
            }
        }

        let last = self.heap.len() - 1;
        self.swap(0, last);
        proof {
            lemma_swap_to_multiset(old(self)@, 0, last as int);
        }
        let r = self.heap.pop();
        self.next_index = self.heap.len();
        proof {
            let swapped = old(self)@.update(0, old(self)@[last as int]).update(
                last as int,
                old(self)@[0],
            );
            assert(self.heap@ =~= swapped.remove(last as int));
            assert(swapped.remove(last as int).to_multiset() == swapped.to_multiset().remove(
                swapped[last as int],
            ));
            assert(self.heap@.to_multiset() == old(self)@.to_multiset().remove(old(self)@[0]));
            assert(heap_ordered_except_below(self.heap@, 0)) by {
                assert forall|i: int|
                    1 <= i < self.heap@.len() && parent_of(i) != 0 implies #[trigger] self.heap@[i]
                    <= self.heap@[parent_of(i)] by {
                    assert(self.heap@[i] == old(self)@[i]);
                    assert(parent_of(i) >= 1);
                    assert(self.heap@[parent_of(i)] == old(self)@[parent_of(i)]);
                }
            }
        }
        if self.heap.len() != 0 {
            self.siftdown(0);
        }
        r
    }

    /// Extracts a slice containing the entire priority queue.
    /// Note the order of the slice will be a heap order, not sorted.
    pub fn as_slice(&self) -> (s: &[i64])
        requires
            self.wf(),
        ensures
            s@ == self@,
    {
        self.heap.as_slice()
    }

    /// Exchanges the entries at `a` and `b`.
    fn swap(&mut self, a: usize, b: usize)
        requires
            a < old(self)@.len(),
            b < old(self)@.len(),
        ensures
            final(self).heap@ == old(self).heap@.update(a as int, old(self).heap@[b as int]).update(
                b as int,
                old(self).heap@[a as int],
            ),
            final(self).next_index == old(self).next_index,
    {
        let va = self.heap[a];
        let vb = self.heap[b];
        self.heap[a] = vb;
        self.heap[b] = va;
    }

    /// Restores the max-heap ordering when only the entry at
    /// `start_index` may be smaller than its children, by walking the
    /// offending entry down the tree.
    #[verifier::rlimit(50)]
    fn siftdown(&mut self, start_index: usize)
        requires
            old(self).next_index == old(self)@.len(),
            start_index < old(self)@.len(),
            heap_ordered_except_below(old(self)@, start_index as int),
            start_index > 0 ==> forall|i: int|
                1 <= i < old(self)@.len() && parent_of(i) == start_index ==> #[trigger] old(
                    self,
                )@[i] <= old(self)@[parent_of(start_index as int)],
        ensures
            final(self).wf(),
            final(self)@.len() == old(self)@.len(),
            final(self)@.to_multiset() == old(self)@.to_multiset(),
    {
        proof {
            broadcast use group_to_multiset_ensures;
        }
        let mut index = start_index;

        while !self.is_leaf(index)
            invariant
                self.next_index == self.heap@.len(),
                index < self.heap@.len(),
                self.heap@.len() == old(self)@.len(),
                self.heap@.to_multiset() == old(self)@.to_multiset(),
                heap_ordered_except_below(self.heap@, index as int),
                index > 0 ==> forall|i: int|
                    1 <= i < self.heap@.len() && parent_of(i) == index ==> #[trigger] self.heap@[i]
                        <= self.heap@[parent_of(index as int)],
            decreases self.heap@.len() - index,
        {
            let ghost pre = self.heap@;
            let n = self.next_index;
            assert(index < n / 2);
            assert(2 * index + 2 <= n);
            let left_ch = left_ch(index);
            let right_ch = right_ch(index);

            let mut max_ch_index = left_ch;
            if right_ch < self.next_index {
                let lv = self.heap[left_ch];
                let rv = self.heap[right_ch];
                if lv < rv {
                    max_ch_index = right_ch;
                }
            }

            let mv = self.heap[max_ch_index];
            let iv = self.heap[index];
            if mv < iv {
                proof {
                    assert(heap_ordered(self.heap@)) by {
                        assert forall|i: int|
                            1 <= i < self.heap@.len() && parent_of(i)
                                == index implies #[trigger] self.heap@[i]
                            <= self.heap@[parent_of(i)] by {
                            assert(i == 2 * index + 1 || i == 2 * index + 2);
                        }
                    }
                }
                return ;
            }

            self.swap(max_ch_index, index);
            proof {
                lemma_swap_to_multiset(pre, max_ch_index as int, index as int);
                let cur = self.heap@;
                assert forall|i: int|
                    1 <= i < cur.len() && parent_of(i) != max_ch_index implies #[trigger] cur[i]
                    <= cur[parent_of(i)] by {
                    if i == max_ch_index {
                        assert(cur[i] == pre[index as int]);
                        assert(cur[parent_of(i)] == pre[max_ch_index as int]);
                    } else if parent_of(i) == index {
                        assert(i == 2 * index + 1 || i == 2 * index + 2);
                        assert(cur[i] == pre[i]);
                        assert(cur[parent_of(i)] == pre[max_ch_index as int]);
                    } else if i == index {
                        assert(cur[i] == pre[max_ch_index as int]);
                        assert(cur[parent_of(i)] == pre[parent_of(i)]);
                        assert(parent_of(max_ch_index as int) == index);
                        assert(pre[max_ch_index as int] <= pre[parent_of(index as int)]);
                    } else {
                        assert(cur[i] == pre[i]);
                        assert(cur[parent_of(i)] == pre[parent_of(i)]);
                    }
                }
                assert forall|i: int|
                    1 <= i < cur.len() && parent_of(i) == max_ch_index implies #[trigger] cur[i]
                    <= cur[parent_of(max_ch_index as int)] by {
                    assert(cur[i] == pre[i]);
                    assert(parent_of(i) == max_ch_index && max_ch_index != index ==> pre[i]
                        <= pre[max_ch_index as int]);
                    assert(cur[parent_of(max_ch_index as int)] == pre[max_ch_index as int]);
                }
            }
            index = max_ch_index;
        }
        proof {
            assert(heap_ordered(self.heap@)) by {
                assert forall|i: int|
                    1 <= i < self.heap@.len() && parent_of(i) == index implies #[trigger] self.heap@[i]
                    <= self.heap@[parent_of(i)] by {
                    assert(i == 2 * index + 1 || i == 2 * index + 2);
                    assert(index >= self.heap@.len() / 2);
                    assert(i >= self.heap@.len());
                }
            }
        }
    }

    /// True when the entry at `index` has no children inside the heap.
    fn is_leaf(&self, index: usize) -> (b: bool)
        requires
            self.next_index == self@.len(),
        ensures
            b == (index >= self@.len() / 2 && index < self@.len()),
    {
        index >= self.next_index / 2 && index < self.next_index
    }
}

impl PartialEq for PriorityQueue {
    /// Two priority queues are equal when they hold the same heap
    /// vector; this mirrors structural equality of the fields.
    fn eq(&self, other: &PriorityQueue) -> (r: bool) {
        let heq = self.heap == other.heap;
        proof {
            assert(heq == (self.heap@ == other.heap@)) by {
                if heq {
                    assert(self.heap@ =~= other.heap@);
                } else if self.heap@ == other.heap@ {
                    assert(forall|i: int|
                        0 <= i < self.heap@.len() ==> self.heap@[i] == #[trigger] other.heap@[i]);
                }
            }
        }
        heq && self.next_index == other.next_index
    }
}

impl vstd::std_specs::cmp::PartialEqSpecImpl for PriorityQueue {
    open spec fn obeys_eq_spec() -> bool {
        true
    }

    closed spec fn eq_spec(&self, other: &PriorityQueue) -> bool {
        self.heap@ == other.heap@ && self.next_index == other.next_index
    }
}

} // verus!
