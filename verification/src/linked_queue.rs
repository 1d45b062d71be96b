//! An unbounded FIFO queue held as a singly linked list of nodes with a
//! sentinel, in the shape of the Michael–Scott queue.
//!
//! The queue keeps two cursors. `head` always points at the sentinel
//! node, from which every live element is reachable through `next`
//! links. `tail` points at some node from which the unique end node
//! (the node whose `next` link is empty) is reachable: it is allowed to
//! lag behind the true end, and even to sit on an unlinked node, and is
//! advanced lazily.
//!
//! Nodes unlinked by `dequeue` are not recycled at once: they are
//! retired, keep their `next` link into the live list, and are handed
//! back for reuse only when no reclamation guard is outstanding, so an
//! iterator standing on a retired node can still walk forward into the
//! live list.

use vstd::prelude::*;
use vstd::set_lib::lemma_len_subset;
use vstd::set_lib::lemma_int_range;
use vstd::set_lib::set_int_range;

verus! {

/// One node of the queue: an element slot and the link to the
/// successor node, both empty while the slot is unused.
struct Slot<T> {
    item: Option<T>,
    next: Option<usize>,
}

impl<T> Slot<T> {
    /// A fresh unused node: no element, no successor. The sentinel of
    /// a new queue starts this way.
    fn new_empty() -> (s: Slot<T>)
        ensures
            s.item is None,
            s.next is None,
    {
        Slot { item: None, next: None }
    }

    /// A fresh node holding `elem`, not yet linked into any list.
    fn new(elem: T) -> (s: Slot<T>)
        ensures
            s.item == Some(elem),
            s.next is None,
    {
        Slot { item: Some(elem), next: None }
    }
}

/// A sequence of distinct values below `n` holds at most `n` values.
proof fn lemma_distinct_bounded(s: Seq<usize>, n: nat)
    requires
        s.no_duplicates(),
        forall|i: int| 0 <= i < s.len() ==> (#[trigger] s[i]) < n,
    ensures
        s.len() <= n,
{
    let si = s.map_values(|x: usize| x as int);
    assert(si.no_duplicates()) by {
        assert forall|i: int, j: int|
            0 <= i < si.len() && 0 <= j < si.len() && i != j implies si[i] != si[j] by {
            assert(s[i] != s[j]);
        }
    }
    si.unique_seq_to_set();
    assert(si.to_set().subset_of(set_int_range(0, n as int))) by {
        assert forall|e: int| si.to_set().contains(e) implies set_int_range(
            0,
            n as int,
        ).contains(e) by {
            let i = choose|i: int| 0 <= i < si.len() && si[i] == e;
            assert(s[i] < n);
        }
    }
    lemma_int_range(0, n as int);
    lemma_len_subset(si.to_set(), set_int_range(0, n as int));
}

/// This queue orders elements first-in-first-out. New elements are
/// linked after the end node; retrieval takes the element reachable
/// right behind the sentinel, which has been in the queue the longest.
pub struct SelkirkLinkedQueue<T> {
    /// The node arena; links are indices into it.
    slots: Vec<Slot<T>>,
    /// The sentinel node: every live element is reachable from it.
    head: usize,
    /// A node from which the end node is reachable; may lag.
    tail: usize,
    /// Outstanding reclamation guards (live iterators).
    guards: usize,
    /// Unlinked nodes, in unlink order, awaiting reclamation.
    retired: Vec<usize>,
    /// Reclaimed slots, ready for reuse.
    free: Vec<usize>,
    /// The live list: the sentinel followed by the element nodes.
    chain: Ghost<Seq<usize>>,
}

impl<T> View for SelkirkLinkedQueue<T> {
    type V = Seq<T>;

    /// The elements held, oldest first.
    closed spec fn view(&self) -> Seq<T> {
        Seq::new(
            (self.chain@.len() - 1) as nat,
            |i: int| self.slots@[self.chain@[i + 1] as int].item.unwrap(),
        )
    }
}

impl<T> SelkirkLinkedQueue<T> {
    /// The retired nodes followed by the live list: one linked list in
    /// the arena, ending at the unique node without a successor.
    pub closed spec fn full_chain(&self) -> Seq<usize> {
        self.retired@ + self.chain@
    }

    /// How many retired nodes are awaiting reclamation.
    pub closed spec fn retired_len(&self) -> int {
        self.retired@.len() as int
    }

    /// How many reclamation guards are outstanding.
    pub closed spec fn guard_count(&self) -> int {
        self.guards as int
    }

    /// Internal invariant. The live list starts at the sentinel
    /// (`head` is exact); following `next` links from any retired node
    /// or any live node reaches the unique end node; `tail` sits
    /// somewhere on that combined list, so the end stays reachable from
    /// it even when it lags; element nodes hold an element, the
    /// sentinel and retired nodes hold none; reclaimed slots are
    /// disjoint from every node still reachable.
    pub closed spec fn wf(&self) -> bool {
        let fc = self.full_chain();
        &&& self.chain@.len() >= 1
        &&& self.head == self.chain@[0]
        &&& forall|i: int| 0 <= i < fc.len() ==> (#[trigger] fc[i]) < self.slots@.len()
        &&& fc.no_duplicates()
        &&& forall|i: int|
            0 <= i < fc.len() - 1 ==> self.slots@[(#[trigger] fc[i]) as int].next == Some(fc[i + 1])
        &&& self.slots@[fc[fc.len() - 1] as int].next is None
        &&& forall|i: int|
            0 <= i <= self.retired@.len() ==> self.slots@[(#[trigger] fc[i]) as int].item is None
        &&& forall|i: int|
            1 <= i < self.chain@.len() ==> self.slots@[(#[trigger] self.chain@[i]) as int].item
                is Some
        &&& fc.contains(self.tail)
        &&& forall|i: int| 0 <= i < self.free@.len() ==> (#[trigger] self.free@[i]) < self.slots@.len()
        &&& self.free@.no_duplicates()
        &&& forall|i: int| 0 <= i < self.free@.len() ==> !fc.contains(#[trigger] self.free@[i])
    }

    /// Creates a new, empty queue holding only the sentinel node.
    pub fn new() -> (q: SelkirkLinkedQueue<T>)
        ensures
            q.wf(),
            q@ == Seq::<T>::empty(),
            q.guard_count() == 0,
            q.retired_len() == 0,
    {
        let mut slots: Vec<Slot<T>> = Vec::new();
        slots.push(Slot::new_empty());
        let q = SelkirkLinkedQueue {
            slots,
            head: 0usize,
            tail: 0usize,
            guards: 0usize,
            retired: Vec::new(),
            free: Vec::new(),
            chain: Ghost(Seq::empty().push(0usize)),
        };
        proof {
            assert(q.full_chain() =~= seq![0usize]);
            assert(q.full_chain()[0] == 0usize);
            assert(q.full_chain().contains(q.tail));
            assert(q@ =~= Seq::<T>::empty());
        }
        q
    }

    /// Fills one unused slot with `elem`, reusing a reclaimed slot when
    /// one is available, and returns its index. The new node is not yet
    /// reachable: the lists, cursors and guards are untouched.
    fn alloc_slot(&mut self, elem: T) -> (idx: usize)
        requires
            old(self).wf(),
        ensures
            final(self).wf(),
            final(self)@ == old(self)@,
            idx < final(self).slots@.len(),
            !final(self).full_chain().contains(idx),
            final(self).full_chain() == old(self).full_chain(),
            final(self).chain@ == old(self).chain@,
            final(self).retired@ == old(self).retired@,
            final(self).head == old(self).head,
            final(self).tail == old(self).tail,
            final(self).guards == old(self).guards,
            final(self).slots@.len() >= old(self).slots@.len(),
            forall|j: int|
                0 <= j < old(self).slots@.len() && j != idx ==> final(self).slots@[j] == old(
                    self,
                ).slots@[j],
            final(self).slots@[idx as int].item == Some(elem),
            final(self).slots@[idx as int].next is None,
            !final(self).free@.contains(idx),
    {
        let ghost fc0 = self.full_chain();
        let idx: usize;
        if self.free.len() > 0 {
            let popped = self.free.pop();
            idx = popped.unwrap();
            proof {
                assert(!fc0.contains(old(self).free@[old(self).free@.len() - 1]));
                assert(!self.free@.contains(idx)) by {
                    if self.free@.contains(idx) {
                        let i = choose|i: int|
                            0 <= i < self.free@.len() && self.free@[i] == idx;
                        assert(old(self).free@[i] == old(self).free@[old(self).free@.len() - 1]);
                    }
                }
                assert(self.free@.no_duplicates()) by {
                    assert forall|i: int, j: int|
                        0 <= i < self.free@.len() && 0 <= j < self.free@.len() && i
                            != j implies self.free@[i] != self.free@[j] by {
                        assert(old(self).free@[i] != old(self).free@[j]);
                    }
                }
            }
            self.slots[idx] = Slot::new(elem);
        } else {
            idx = self.slots.len();
            self.slots.push(Slot::new(elem));
            proof {
                assert(!fc0.contains(idx)) by {
                    if fc0.contains(idx) {
                        let i = choose|i: int| 0 <= i < fc0.len() && fc0[i] == idx;
                        assert(fc0[i] < old(self).slots@.len());
                    }
                }
            }
        }
        proof {
            let fc = self.full_chain();
            assert(fc == fc0);
            assert forall|i: int| 0 <= i < fc.len() implies self.slots@[(#[trigger] fc[i]) as int]
                == old(self).slots@[fc[i] as int] by {
                assert(fc[i] != idx);
            }
            assert(self.wf()) by {
                assert(self.chain@.len() >= 1);
                assert(self.head == self.chain@[0]);
                assert(forall|i: int| 0 <= i < fc.len() ==> (#[trigger] fc[i]) < self.slots@.len());
                assert(fc.no_duplicates());
                assert forall|i: int| 0 <= i < fc.len() - 1 implies self.slots@[(
                #[trigger] fc[i]) as int].next == Some(fc[i + 1]) by {
                    assert(self.slots@[fc[i] as int] == old(self).slots@[fc[i] as int]);
                }
                assert(self.slots@[fc[fc.len() - 1] as int].next is None);
                assert forall|i: int| 0 <= i <= self.retired@.len() implies self.slots@[(
                #[trigger] fc[i]) as int].item is None by {
                    assert(self.slots@[fc[i] as int] == old(self).slots@[fc[i] as int]);
                }
                assert forall|i: int| 1 <= i < self.chain@.len() implies self.slots@[(
                #[trigger] self.chain@[i]) as int].item is Some by {
                    assert(fc[self.retired@.len() + i] == self.chain@[i]);
                    assert(self.slots@[self.chain@[i] as int] == old(self).slots@[self.chain@[i] as int]);
                }
                assert(fc.contains(self.tail));
                assert(forall|i: int|
                    0 <= i < self.free@.len() ==> (#[trigger] self.free@[i]) < self.slots@.len());
                assert(self.free@.no_duplicates());
                assert forall|i: int| 0 <= i < self.free@.len() implies !fc.contains(
                    #[trigger] self.free@[i],
                ) by {
                    assert(old(self).free@.len() > 0 ==> self.free@ == old(self).free@.subrange(
                        0,
                        old(self).free@.len() - 1,
                    ));
                    assert(!fc0.contains(old(self).free@[i]));
                }
            }
            assert(self@ =~= old(self)@) by {
                assert forall|i: int| 0 <= i < old(self)@.len() implies self@[i] == old(
                    self,
                )@[i] by {
                    assert(fc0[old(self).retired@.len() + i + 1] == old(self).chain@[i + 1]);
                    assert(self.chain@[i + 1] != idx);
                }
            }
        }
        idx
    }

    /// Walks from `tail` along the `next` links to the unique end node
    /// and returns its index: the end is always reachable from `tail`,
    /// however far it lags.
    fn find_end(&self) -> (p: usize)
        requires
            self.wf(),
        ensures
            p == self.full_chain()[self.full_chain().len() - 1],
            self.slots@[p as int].next is None,
    {
        let ghost fc = self.full_chain();
        let mut p = self.tail;
        proof {
            assert(fc.contains(self.tail));
        }
        let ghost mut k: int = choose|j: int| 0 <= j < fc.len() && fc[j] == p;
        loop
            invariant
                self.wf(),
                0 <= k < fc.len(),
                fc == self.full_chain(),
                fc[k] == p,
            ensures
                0 <= k < fc.len(),
                fc[k] == p,
                self.slots@[p as int].next is None,
            decreases fc.len() - k,
        {
            let next = self.slots[p].next;
            match next {
                None => {
                    break ;
                },
                Some(n2) => {
                    proof {
                        assert(k < fc.len() - 1) by {
                            if k == fc.len() - 1 {
                                assert(self.slots@[fc[k] as int].next is None);
                            }
                        }
                        k = k + 1;
                    }
                    p = n2;
                },
            }
        }
        proof {
            assert(k == fc.len() - 1) by {
                if k < fc.len() - 1 {
                    assert(self.slots@[(fc[k]) as int].next == Some(fc[k + 1]));
                }
            }
        }
        p
    }

    /// Appends `elem` behind the current end node and swings `tail` to
    /// the new node. Always succeeds; the other elements, the guards
    /// and the retired nodes are untouched, and the combined list only
    /// grows at its end, so iterators keep their footing.
    pub fn enqueue(&mut self, elem: T)
        requires
            old(self).wf(),
        ensures
            final(self).wf(),
            final(self)@ == old(self)@.push(elem),
            final(self).guard_count() == old(self).guard_count(),
            final(self).retired_len() == old(self).retired_len(),
            old(self).full_chain().is_prefix_of(final(self).full_chain()),
            final(self).full_chain().len() == old(self).full_chain().len() + 1,
    {
        let idx = self.alloc_slot(elem);
        let ghost mid = *self;
        let ghost fc0 = self.full_chain();
        let p = self.find_end();

        // Link the new node behind the end node, then swing `tail`.
        self.slots[p].next = Some(idx);
        self.tail = idx;
        proof {
            self.chain = Ghost(self.chain@.push(idx));
        }

        proof {
            let fc1 = self.full_chain();
            assert(fc1 =~= fc0.push(idx));
            assert(fc0.is_prefix_of(fc1));
            assert(p != idx) by {
                assert(fc0[fc0.len() - 1] == p);
            }
            assert(fc1.no_duplicates()) by {
                assert forall|i: int, j: int|
                    0 <= i < fc1.len() && 0 <= j < fc1.len() && i != j implies fc1[i] != fc1[j] by {
                    if i < fc0.len() && j < fc0.len() {
                        assert(fc0[i] != fc0[j]);
                    } else if i < fc0.len() {
                        assert(fc0[i] != idx);
                    } else if j < fc0.len() {
                        assert(fc0[j] != idx);
                    }
                }
            }
            assert(self.wf()) by {
                assert(self.head == self.chain@[0]) by {
                    assert(self.chain@[0] == mid.chain@[0]);
                }
                assert forall|i: int| 0 <= i < fc1.len() implies (#[trigger] fc1[i])
                    < self.slots@.len() by {
                    if i < fc0.len() {
                        assert(fc0[i] < mid.slots@.len());
                    }
                }
                assert forall|i: int|
                    0 <= i < fc1.len() - 1 implies self.slots@[(#[trigger] fc1[i]) as int].next
                    == Some(fc1[i + 1]) by {
                    if i < fc0.len() - 1 {
                        assert(fc0[i] != p) by {
                            assert(fc0[fc0.len() - 1] == p);
                        }
                        assert(self.slots@[fc1[i] as int] == mid.slots@[fc0[i] as int]);
                    } else {
                        assert(fc1[i] == p && fc1[i + 1] == idx);
                    }
                }
                assert(self.slots@[fc1[fc1.len() - 1] as int].next is None) by {
                    assert(fc1[fc1.len() - 1] == idx);
                }
                assert forall|i: int| 0 <= i <= self.retired@.len() implies self.slots@[(
                #[trigger] fc1[i]) as int].item is None by {
                    assert(i < fc0.len());
                    assert(fc1[i] == fc0[i]);
                    assert(fc0[i] != idx);
                    assert(self.slots@[fc0[i] as int].item == mid.slots@[fc0[i] as int].item);
                }
                assert forall|i: int| 1 <= i < self.chain@.len() implies self.slots@[(
                #[trigger] self.chain@[i]) as int].item is Some by {
                    if i < self.chain@.len() - 1 {
                        assert(self.chain@[i] == mid.chain@[i]);
                        assert(fc1[self.retired@.len() + i] == self.chain@[i]);
                        assert(fc0[self.retired@.len() + i] == self.chain@[i]);
                        assert(self.chain@[i] != idx);
                        assert(self.slots@[self.chain@[i] as int].item == mid.slots@[self.chain@[i] as int].item);
                    } else {
                        assert(self.chain@[i] == idx);
                    }
                }
                assert(fc1.contains(self.tail)) by {
                    assert(fc1[fc1.len() - 1] == idx);
                }
                assert forall|i: int| 0 <= i < self.free@.len() implies !fc1.contains(
                    #[trigger] self.free@[i],
                ) by {
                    assert(!fc0.contains(self.free@[i]));
                    if fc1.contains(self.free@[i]) {
                        let j = choose|j: int| 0 <= j < fc1.len() && fc1[j] == self.free@[i];
                        if j < fc0.len() {
                            assert(fc0.contains(self.free@[i]));
                        } else {
                            assert(fc1[j] == idx);
                            assert(!mid.free@.contains(idx));
                        }
                    }
                }
            }
            assert(self@ =~= old(self)@.push(elem)) by {
                assert forall|i: int| 0 <= i < old(self)@.len() implies self@[i] == old(
                    self,
                )@[i] by {
                    assert(self.chain@[i + 1] == mid.chain@[i + 1]);
                    assert(fc0[mid.retired@.len() + i + 1] == mid.chain@[i + 1]);
                    assert(mid.chain@[i + 1] != idx);
                    assert(mid.chain@[i + 1] == p ==> self.slots@[p as int].item == mid.slots@[p as int].item);
                    assert(mid@[i] == old(self)@[i]);
                }
                assert(self.chain@[self.chain@.len() - 1] == idx);
                assert(self@[old(self)@.len() as int] == elem);
            }
        }
    }

    /// Offers an element that may be absent: an absent element is a
    /// caller error, rejected synchronously without touching the
    /// queue; a present one is enqueued and the offer succeeds.
    pub fn offer(&mut self, elem: Option<T>) -> (r: Result<(), ()>)
        requires
            old(self).wf(),
        ensures
            final(self).wf(),
            elem is None ==> r is Err && *final(self) == *old(self),
            elem matches Some(x) ==> {
                &&& r is Ok
                &&& final(self)@ == old(self)@.push(x)
                &&& final(self).guard_count() == old(self).guard_count()
                &&& final(self).retired_len() == old(self).retired_len()
                &&& old(self).full_chain().is_prefix_of(final(self).full_chain())
                &&& final(self).full_chain().len() == old(self).full_chain().len() + 1
            },
    {
        match elem {
            None => Err(()),
            Some(x) => {
                self.enqueue(x);
                Ok(())
            },
        }
    }

    /// Appends `elem` at the end of the queue, as `enqueue` does.
    pub fn add(&mut self, elem: T)
        requires
            old(self).wf(),
        ensures
            final(self).wf(),
            final(self)@ == old(self)@.push(elem),
            final(self).guard_count() == old(self).guard_count(),
            final(self).retired_len() == old(self).retired_len(),
            old(self).full_chain().is_prefix_of(final(self).full_chain()),
            final(self).full_chain().len() == old(self).full_chain().len() + 1,
    {
        self.enqueue(elem)
    }

    /// Removes and returns the oldest element, or signals the
    /// empty-queue condition; never blocks. On success the old sentinel
    /// is unlinked and retired, the next node becomes the sentinel, and
    /// with a guard outstanding the retired node is kept, so the
    /// combined list of nodes is unchanged and iterators keep their
    /// footing.
    pub fn dequeue(&mut self) -> (r: Result<T, ()>)
        requires
            old(self).wf(),
        ensures
            final(self).wf(),
            final(self).guard_count() == old(self).guard_count(),
            old(self)@.len() == 0 ==> r is Err && final(self)@ == old(self)@
                && final(self).full_chain() == old(self).full_chain()
                && final(self).retired_len() == old(self).retired_len(),
            old(self)@.len() > 0 ==> {
                &&& r matches Ok(x) && x == old(self)@[0]
                &&& final(self)@ == old(self)@.drop_first()
                &&& old(self).guard_count() > 0 ==> final(self).full_chain() == old(self).full_chain()
                    && final(self).retired_len() == old(self).retired_len() + 1
            },
    {
        let ghost fc0 = self.full_chain();
        let ghost ri: int = self.retired@.len() as int;
        let h = self.head;
        proof {
            assert(fc0[ri] == h);
            assert(h < self.slots@.len());
        }
        let next = self.slots[h].next;
        match next {
            None => {
                proof {
                    // the sentinel is the end node: no element is live
                    assert(self.chain@.len() == 1) by {
                        if ri < fc0.len() - 1 {
                            assert(self.slots@[(fc0[ri]) as int].next == Some(fc0[ri + 1]));
                        }
                    }
                    assert(self@.len() == 0);
                }
                Err(())
            },
            Some(nxt) => {
                proof {
                    assert(ri < fc0.len() - 1) by {
                        if ri == fc0.len() - 1 {
                            assert(self.slots@[fc0[fc0.len() - 1] as int].next is None);
                        }
                    }
                    assert(self.slots@[(fc0[ri]) as int].next == Some(fc0[ri + 1]));
                    assert(nxt == self.chain@[1]);
                    assert(self.chain@.len() >= 2);
                    assert(fc0[ri + 1] == nxt);
                    assert(nxt < self.slots@.len());
                    assert(self.slots@[nxt as int].item is Some);
                    assert(self@[0] == self.slots@[nxt as int].item.unwrap());
                }
                let ghost mid = *self;
                let taken = self.slots[nxt].item.take();
                let x = taken.unwrap();
                // the old sentinel is unlinked and retired; `tail` is
                // left alone even when it sits on it — the end stays
                // reachable from it, and it self-corrects lazily
                self.head = nxt;
                self.retired.push(h);
                proof {
                    self.chain = Ghost(self.chain@.drop_first());
                }
                proof {
                    let fc1 = self.full_chain();
                    assert(fc1 =~= fc0) by {
                        assert forall|i: int| 0 <= i < fc0.len() implies fc1[i] == fc0[i] by {
                            if i < ri {
                                assert(fc1[i] == mid.retired@[i]);
                            } else if i == ri {
                                assert(fc1[i] == h);
                                assert(fc0[ri] == mid.chain@[0]);
                            } else {
                                assert(fc1[i] == mid.chain@[i - ri]);
                            }
                        }
                    }
                    assert forall|j: int|
                        0 <= j < self.slots@.len() && j != nxt implies self.slots@[j]
                        == mid.slots@[j] by {}
                    assert(self.wf()) by {
                        assert(self.chain@.len() >= 1);
                        assert(self.head == self.chain@[0]);
                        assert(forall|i: int|
                            0 <= i < fc1.len() ==> (#[trigger] fc1[i]) < self.slots@.len());
                        assert(fc1.no_duplicates());
                        assert forall|i: int| 0 <= i < fc1.len() - 1 implies self.slots@[(
                        #[trigger] fc1[i]) as int].next == Some(fc1[i + 1]) by {
                            assert(self.slots@[fc1[i] as int].next == mid.slots@[fc0[i] as int].next);
                        }
                        assert(self.slots@[fc1[fc1.len() - 1] as int].next is None) by {
                            assert(self.slots@[fc1[fc1.len() - 1] as int].next == mid.slots@[fc0[fc0.len() - 1] as int].next);
                        }
                        assert forall|i: int| 0 <= i <= self.retired@.len() implies self.slots@[(
                        #[trigger] fc1[i]) as int].item is None by {
                            if i <= ri {
                                assert(fc1[i] == fc0[i]);
                                assert(fc0[i] != nxt) by {
                                    assert(fc0[ri + 1] == nxt);
                                }
                                assert(mid.slots@[fc0[i] as int].item is None);
                            } else {
                                assert(i == ri + 1);
                                assert(fc1[i] == nxt);
                            }
                        }
                        assert forall|i: int| 1 <= i < self.chain@.len() implies self.slots@[(
                        #[trigger] self.chain@[i]) as int].item is Some by {
                            assert(self.chain@[i] == mid.chain@[i + 1]);
                            assert(fc0[ri + i + 1] == mid.chain@[i + 1]);
                            assert(fc0[ri + i + 1] != nxt);
                            assert(mid.slots@[mid.chain@[i + 1] as int].item is Some);
                        }
                        assert(fc1.contains(self.tail)) by {
                            assert(fc0.contains(mid.tail));
                        }
                        assert(forall|i: int|
                            0 <= i < self.free@.len() ==> (#[trigger] self.free@[i])
                                < self.slots@.len());
                        assert(self.free@.no_duplicates());
                        assert forall|i: int| 0 <= i < self.free@.len() implies !fc1.contains(
                            #[trigger] self.free@[i],
                        ) by {
                            assert(!fc0.contains(mid.free@[i]));
                        }
                    }
                    assert(self@ =~= old(self)@.drop_first()) by {
                        assert forall|i: int| 0 <= i < self@.len() implies self@[i] == old(
                            self,
                        )@[i + 1] by {
                            assert(self.chain@[i + 1] == mid.chain@[i + 2]);
                            assert(fc0[ri + i + 2] == mid.chain@[i + 2]);
                            assert(mid.chain@[i + 2] != nxt);
                            assert(self.slots@[self.chain@[i + 1] as int] == mid.slots@[mid.chain@[i + 2] as int]);
                        }
                    }
                }
                if self.guards == 0 {
                    self.purge();
                }
                Ok(x)
            },
        }
    }

    /// Hands every retired node back for reuse and parks the lagging
    /// tail cursor on the sentinel; called only once no reclamation
    /// guard is outstanding.
    fn purge(&mut self)
        requires
            old(self).wf(),
        ensures
            final(self).wf(),
            final(self)@ == old(self)@,
            final(self).guards == old(self).guards,
            final(self).retired_len() == 0,
            final(self).chain@ == old(self).chain@,
    {
        let ghost fc0 = self.full_chain();
        let ghost ri: int = self.retired@.len() as int;
        // The tail cursor may sit on a retired node about to be reused:
        // park it on the sentinel; the next enqueue swings it forward.
        self.tail = self.head;
        self.free.append(&mut self.retired);
        proof {
            let fc1 = self.full_chain();
            assert(fc1 =~= self.chain@);
            assert forall|i: int| 0 <= i < fc1.len() implies fc1[i] == fc0[ri + i] by {}
            assert(self.wf()) by {
                assert(self.head == self.chain@[0]);
                assert forall|i: int| 0 <= i < fc1.len() implies (#[trigger] fc1[i])
                    < self.slots@.len() by {
                    assert(fc1[i] == fc0[ri + i]);
                }
                assert(fc1.no_duplicates()) by {
                    assert forall|i: int, j: int|
                        0 <= i < fc1.len() && 0 <= j < fc1.len() && i != j implies fc1[i]
                        != fc1[j] by {
                        assert(fc0[ri + i] != fc0[ri + j]);
                    }
                }
                assert forall|i: int| 0 <= i < fc1.len() - 1 implies self.slots@[(
                #[trigger] fc1[i]) as int].next == Some(fc1[i + 1]) by {
                    assert(fc0[ri + i] == fc1[i]);
                    assert(self.slots@[(fc0[ri + i]) as int].next == Some(fc0[ri + i + 1]));
                }
                assert(self.slots@[fc1[fc1.len() - 1] as int].next is None) by {
                    assert(fc1[fc1.len() - 1] == fc0[fc0.len() - 1]);
                }
                assert forall|i: int| 0 <= i <= self.retired@.len() implies self.slots@[(
                #[trigger] fc1[i]) as int].item is None by {
                    assert(i == 0);
                    assert(fc1[0] == fc0[ri]);
                }
                assert(fc1.contains(self.tail)) by {
                    assert(fc1[0] == self.head);
                }
                assert forall|i: int| 0 <= i < self.free@.len() implies (#[trigger] self.free@[i])
                    < self.slots@.len() by {
                    if i < old(self).free@.len() {
                        assert(self.free@[i] == old(self).free@[i]);
                    } else {
                        assert(self.free@[i] == fc0[i - old(self).free@.len()]);
                    }
                }
                assert(self.free@.no_duplicates()) by {
                    assert forall|i: int, j: int|
                        0 <= i < self.free@.len() && 0 <= j < self.free@.len() && i
                            != j implies self.free@[i] != self.free@[j] by {
                        let nf = old(self).free@.len() as int;
                        if i < nf && j < nf {
                            assert(old(self).free@[i] != old(self).free@[j]);
                        } else if i < nf {
                            assert(self.free@[j] == fc0[j - nf]);
                            assert(!fc0.contains(old(self).free@[i]));
                        } else if j < nf {
                            assert(self.free@[i] == fc0[i - nf]);
                            assert(!fc0.contains(old(self).free@[j]));
                        } else {
                            assert(fc0[i - nf] != fc0[j - nf]);
                        }
                    }
                }
                assert forall|i: int| 0 <= i < self.free@.len() implies !fc1.contains(
                    #[trigger] self.free@[i],
                ) by {
                    let nf = old(self).free@.len() as int;
                    if fc1.contains(self.free@[i]) {
                        let j = choose|j: int| 0 <= j < fc1.len() && fc1[j] == self.free@[i];
                        assert(fc1[j] == fc0[ri + j]);
                        if i < nf {
                            assert(!fc0.contains(old(self).free@[i]));
                        } else {
                            assert(self.free@[i] == fc0[i - nf]);
                            assert(i - nf < ri);
                            assert(fc0[i - nf] != fc0[ri + j]);
                        }
                    }
                }
            }
            assert(self@ =~= old(self)@);
        }
    }

    /// Best-effort element count: walks the live list from the
    /// sentinel to the end and counts the element nodes.
    pub fn approximate_size(&self) -> (n: usize)
        requires
            self.wf(),
        ensures
            n == self@.len(),
    {
        let ghost fc = self.full_chain();
        let ghost ri: int = self.retired@.len() as int;
        proof {
            lemma_distinct_bounded(fc, self.slots@.len() as nat);
        }
        let arena_len = self.slots.len();
        proof {
            assert(fc.len() <= arena_len <= usize::MAX);
        }
        let mut count: usize = 0;
        let mut p = self.head;
        proof {
            assert(fc[ri] == p);
        }
        let ghost mut k: int = ri;
        loop
            invariant
                self.wf(),
                fc == self.full_chain(),
                ri == self.retired@.len() as int,
                fc.len() <= usize::MAX,
                ri <= k < fc.len(),
                fc[k] == p,
                count == k - ri,
            ensures
                count == self.chain@.len() - 1,
            decreases fc.len() - k,
        {
            let next = self.slots[p].next;
            match next {
                None => {
                    proof {
                        assert(k == fc.len() - 1) by {
                            if k < fc.len() - 1 {
                                assert(self.slots@[(fc[k]) as int].next == Some(fc[k + 1]));
                            }
                        }
                    }
                    break ;
                },
                Some(n2) => {
                    proof {
                        assert(k < fc.len() - 1) by {
                            if k == fc.len() - 1 {
                                assert(self.slots@[fc[k] as int].next is None);
                            }
                        }
                        k = k + 1;
                    }
                    count = count + 1;
                    p = n2;
                },
            }
        }
        count
    }

    /// An iterator `it` stands on one node of the combined list of
    /// retired and live nodes.
    pub closed spec fn iter_valid(&self, it: QueueIter) -> bool {
        &&& 0 <= it.pos@ < self.full_chain().len()
        &&& self.full_chain()[it.pos@] == it.cursor
    }

    /// The elements an iterator has yet to yield: every live element
    /// behind its node. An iterator standing on a retired node or on
    /// the sentinel has the whole queue ahead of it.
    pub closed spec fn iter_remaining(&self, it: QueueIter) -> Seq<T> {
        if it.pos@ < self.retired@.len() {
            self@
        } else {
            self@.skip(it.pos@ - self.retired@.len())
        }
    }

    /// Creates a weakly consistent iterator over the queue, standing on
    /// the sentinel with every live element ahead of it. The iterator
    /// holds a reclamation guard until it is handed back through
    /// `iter_finish`, so the nodes it may stand on are not reclaimed
    /// under it.
    pub fn iterate(&mut self) -> (it: QueueIter)
        requires
            old(self).wf(),
            old(self).guard_count() < usize::MAX,
        ensures
            final(self).wf(),
            final(self)@ == old(self)@,
            final(self).guard_count() == old(self).guard_count() + 1,
            final(self).full_chain() == old(self).full_chain(),
            final(self).retired_len() == old(self).retired_len(),
            final(self).iter_valid(it),
            final(self).iter_remaining(it) == final(self)@,
    {
        self.guards = self.guards + 1;
        let it = QueueIter { cursor: self.head, pos: Ghost(self.retired@.len() as int) };
        proof {
            assert(self.full_chain()[it.pos@] == self.chain@[0]);
            assert(self@.skip(0) =~= self@);
        }
        it
    }

    /// Weak iterator consistency across an enqueue: an iterator made
    /// before the enqueue keeps its footing, and the new element joins
    /// the end of what it has yet to yield — nothing is lost, nothing
    /// is fabricated, nothing is yielded twice.
    pub proof fn lemma_iter_enqueue(pre: Self, post: Self, it: QueueIter, x: T)
        requires
            pre.wf(),
            post.wf(),
            pre.iter_valid(it),
            post@ == pre@.push(x),
            pre.full_chain().is_prefix_of(post.full_chain()),
            post.full_chain().len() == pre.full_chain().len() + 1,
            post.retired_len() == pre.retired_len(),
        ensures
            post.iter_valid(it),
            post.iter_remaining(it) == pre.iter_remaining(it).push(x),
    {
        assert(post.full_chain()[it.pos@] == pre.full_chain()[it.pos@]);
        if it.pos@ < pre.retired@.len() {
            assert(post.iter_remaining(it) == pre.iter_remaining(it).push(x));
        } else {
            let d = it.pos@ - pre.retired@.len();
            assert(d <= pre@.len()) by {
                assert(it.pos@ < pre.full_chain().len());
            }
            assert(post@.skip(d) =~= pre@.skip(d).push(x));
        }
    }

    /// Weak iterator consistency across a dequeue made under the
    /// iterator's guard: the iterator keeps its footing, and what it
    /// has yet to yield is unchanged — or, when the dequeued element
    /// was still ahead of it, loses exactly that element.
    pub proof fn lemma_iter_dequeue(pre: Self, post: Self, it: QueueIter)
        requires
            pre.wf(),
            post.wf(),
            pre.iter_valid(it),
            pre@.len() > 0,
            post@ == pre@.drop_first(),
            post.full_chain() == pre.full_chain(),
            post.retired_len() == pre.retired_len() + 1,
        ensures
            post.iter_valid(it),
            post.iter_remaining(it) == pre.iter_remaining(it) || (pre.iter_remaining(it) == pre@
                && post.iter_remaining(it) == post@),
    {
        if it.pos@ <= pre.retired@.len() {
            assert(pre.iter_remaining(it) == pre@) by {
                if it.pos@ == pre.retired@.len() {
                    assert(pre@.skip(0) =~= pre@);
                }
            }
            assert(post.iter_remaining(it) == post@);
        } else {
            let d = it.pos@ - pre.retired@.len();
            assert(post.iter_remaining(it) == post@.skip(d - 1));
            assert(post@.skip(d - 1) =~= pre@.skip(d));
        }
    }

    /// Releases the guard held by an iterator. When the last guard
    /// goes, the retired nodes are reclaimed for reuse.
    pub fn iter_finish(&mut self, it: QueueIter)
        requires
            old(self).wf(),
            old(self).guard_count() > 0,
        ensures
            final(self).wf(),
            final(self)@ == old(self)@,
            final(self).guard_count() == old(self).guard_count() - 1,
    {
        // the iterator is consumed: handing it back is what releases
        // its guard
        let _ = it;
        self.guards = self.guards - 1;
        if self.guards == 0 {
            self.purge();
        }
    }
}

impl<T: Copy> SelkirkLinkedQueue<T> {
    /// Advances the iterator to the next element node and yields a copy
    /// of its element; yields nothing exactly when every element ahead
    /// of the iterator has been yielded. Each element present ahead of
    /// the iterator is yielded once, in list order, and nothing is
    /// fabricated: the yield is always the first remaining element.
    pub fn iter_next(&self, it: &mut QueueIter) -> (r: Option<T>)
        requires
            self.wf(),
            self.iter_valid(*old(it)),
        ensures
            self.iter_valid(*final(it)),
            match r {
                Some(x) => self.iter_remaining(*old(it)).len() > 0 && x == self.iter_remaining(
                    *old(it),
                )[0] && self.iter_remaining(*final(it)) == self.iter_remaining(
                    *old(it),
                ).drop_first(),
                None => self.iter_remaining(*old(it)).len() == 0 && self.iter_remaining(
                    *final(it),
                ).len() == 0,
            },
    {
        let ghost fc = self.full_chain();
        let ghost ri: int = self.retired@.len() as int;
        loop
            invariant
                self.wf(),
                fc == self.full_chain(),
                ri == self.retired@.len() as int,
                self.iter_valid(*it),
                self.iter_remaining(*it) == self.iter_remaining(*old(it)),
            decreases fc.len() - it.pos@,
        {
            let next = self.slots[it.cursor].next;
            match next {
                None => {
                    proof {
                        assert(it.pos@ == fc.len() - 1) by {
                            if it.pos@ < fc.len() - 1 {
                                assert(self.slots@[(fc[it.pos@]) as int].next == Some(
                                    fc[it.pos@ + 1],
                                ));
                            }
                        }
                        assert(ri <= fc.len() - 1);
                        assert(self.iter_remaining(*it) =~= Seq::<T>::empty()) by {
                            assert(it.pos@ - ri == self.chain@.len() - 1);
                        }
                    }
                    return None;
                },
                Some(n2) => {
                    let ghost pre = *it;
                    it.cursor = n2;
                    proof {
                        assert(pre.pos@ < fc.len() - 1) by {
                            if pre.pos@ == fc.len() - 1 {
                                assert(self.slots@[fc[pre.pos@] as int].next is None);
                            }
                        }
                        assert(self.slots@[(fc[pre.pos@]) as int].next == Some(fc[pre.pos@ + 1]));
                        it.pos = Ghost(pre.pos@ + 1);
                        assert(fc[it.pos@] == it.cursor);
                        assert(it.cursor < self.slots@.len());
                    }
                    let itm = self.slots[it.cursor].item;
                    match itm {
                        Some(x) => {
                            proof {
                                // an element node sits in the live list,
                                // strictly behind the sentinel
                                assert(it.pos@ > ri) by {
                                    if it.pos@ <= ri {
                                        assert(self.slots@[(fc[it.pos@]) as int].item is None);
                                    }
                                }
                                assert(pre.pos@ >= ri);
                                let c = it.pos@ - ri;
                                assert(fc[ri + c] == self.chain@[c]);
                                assert(1 <= c < self.chain@.len());
                                assert(x == self@[c - 1]);
                                assert(self.iter_remaining(pre) == self@.skip(c - 1));
                                assert(self@.skip(c - 1).len() > 0);
                                assert(self@.skip(c - 1)[0] == self@[c - 1]);
                                assert(self.iter_remaining(*it) =~= self.iter_remaining(
                                    pre,
                                ).drop_first());
                            }
                            return Some(x);
                        },
                        None => {
                            proof {
                                // a retired node or the sentinel: skip it
                                assert(it.pos@ <= ri) by {
                                    if it.pos@ > ri {
                                        assert(self.chain@[it.pos@ - ri] == fc[it.pos@]);
                                        assert(self.slots@[(self.chain@[it.pos@ - ri]) as int].item
                                            is Some);
                                    }
                                }
                                assert(self.iter_remaining(*it) == self.iter_remaining(pre)) by {
                                    assert(it.pos@ == ri ==> self.iter_remaining(*it) =~= self@);
                                }
                            }
                        },
                    }
                },
            }
        }
    }

    /// Collects the elements as they stand, oldest first, in one walk
    /// of the live list from the sentinel: every live element exactly
    /// once, in arrival order, nothing fabricated.
    pub fn snapshot(&self) -> (r: Vec<T>)
        requires
            self.wf(),
        ensures
            r@ == self@,
    {
        let ghost fc = self.full_chain();
        let ghost ri: int = self.retired@.len() as int;
        proof {
            lemma_distinct_bounded(fc, self.slots@.len() as nat);
        }
        let mut out: Vec<T> = Vec::new();
        let mut p = self.head;
        proof {
            assert(fc[ri] == p);
            assert(out@ =~= self@.take(0));
        }
        let ghost mut k: int = ri;
        loop
            invariant
                self.wf(),
                fc == self.full_chain(),
                ri == self.retired@.len() as int,
                ri <= k < fc.len(),
                fc[k] == p,
                out@ == self@.take(k - ri),
            ensures
                out@ == self@,
            decreases fc.len() - k,
        {
            let next = self.slots[p].next;
            match next {
                None => {
                    proof {
                        assert(k == fc.len() - 1) by {
                            if k < fc.len() - 1 {
                                assert(self.slots@[(fc[k]) as int].next == Some(fc[k + 1]));
                            }
                        }
                        assert(self@.take(k - ri) =~= self@);
                    }
                    break ;
                },
                Some(n2) => {
                    proof {
                        assert(k < fc.len() - 1) by {
                            if k == fc.len() - 1 {
                                assert(self.slots@[fc[k] as int].next is None);
                            }
                        }
                        assert(self.slots@[(fc[k]) as int].next == Some(fc[k + 1]));
                        assert(n2 == fc[k + 1]);
                        assert(fc[k + 1] == self.chain@[k + 1 - ri]);
                        assert(self.slots@[n2 as int].item is Some);
                        assert(self.slots@[n2 as int].item.unwrap() == self@[k - ri]);
                    }
                    let itm = self.slots[n2].item;
                    let x = itm.unwrap();
                    out.push(x);
                    proof {
                        assert(out@ =~= self@.take(k + 1 - ri));
                    }
                    p = n2;
                    proof {
                        k = k + 1;
                    }
                },
            }
        }
        out
    }

    /// Returns a copy of the element at the true end of the list, the
    /// element enqueued last, or nothing when the queue is empty. The
    /// end node is found by walking from the lagging `tail` cursor.
    pub fn last(&self) -> (r: Option<T>)
        requires
            self.wf(),
        ensures
            self@.len() == 0 ==> r is None,
            self@.len() > 0 ==> r == Some(self@.last()),
    {
        let ghost fc = self.full_chain();
        let ghost ri: int = self.retired@.len() as int;
        let p = self.find_end();
        proof {
            assert(fc[fc.len() - 1] == self.chain@[self.chain@.len() - 1]);
            if self.chain@.len() == 1 {
                assert(fc[fc.len() - 1] == fc[ri]);
                assert(self.slots@[(fc[ri]) as int].item is None);
            } else {
                assert(self.slots@[(self.chain@[self.chain@.len() - 1]) as int].item is Some);
                assert(self@.last() == self.slots@[(self.chain@[self.chain@.len() - 1]) as int].item.unwrap());
            }
        }
        let itm = self.slots[p].item;
        itm
    }
}

/// A weakly consistent iterator over a `SelkirkLinkedQueue`: it stands
/// on one node and walks the `next` links on demand, holding a
/// reclamation guard so the node under it stays allocated.
pub struct QueueIter {
    /// The node the iterator stands on.
    cursor: usize,
    /// Its position on the combined list of retired and live nodes.
    pos: Ghost<int>,
}

} // verus!
