//! Michael-Scott-style queue: a permanent sentinel node, a head that names
//! the already-consumed node and a tail that names the last linked node.
//! Dequeued sentinels go to the retire list and are only freed by the
//! reclamation pass. Unlike the stack, the concurrent protocol retries
//! unboundedly, so `enqueue` never fails and `dequeue` only ever reports
//! `Empty`.

use vstd::prelude::*;

use crate::hazard::try_reclaim;
use crate::hazard::Arena;
use crate::hazard::BoxedPointer;
use crate::hazard::Holder;
use crate::hazard::Node;

verus! {

/// Why a dequeue did not produce a value.
#[derive(Debug, PartialEq, Eq)]
pub enum QueueError {
    /// The queue held no element: a normal negative result.
    Empty,
}

/// The queue: `chain[0]` is the sentinel (its value already consumed, or
/// never present), `chain[1..]` the pending elements in arrival order;
/// `head` and `tail` name the first and last chain node and are never null.
pub struct Queue<T> {
    mem: Arena<T>,
    holder: Holder,
    dropbox: BoxedPointer,
    head: usize,
    tail: usize,
    chain: Ghost<Seq<usize>>,
}

impl<T> Queue<T> {
    /// The linked chain from the sentinel is exactly `chain`: live, acyclic,
    /// value-carrying except for the sentinel.
    pub closed spec fn chain_ok(&self) -> bool {
        &&& self.chain@.len() >= 1
        &&& self.head == self.chain@[0]
        &&& self.tail == self.chain@[self.chain@.len() - 1]
        &&& forall|i: int|
            0 <= i < self.chain@.len() ==> self.mem.live(#[trigger] self.chain@[i])
        &&& self.mem.node(self.chain@[0]).value.is_none()
        &&& forall|i: int|
            1 <= i < self.chain@.len() ==> self.mem.node(
                #[trigger] self.chain@[i],
            ).value.is_some()
        &&& forall|i: int|
            0 <= i < self.chain@.len() ==> self.mem.node(#[trigger] self.chain@[i]).next == (
            if i + 1 < self.chain@.len() {
                Some(self.chain@[i + 1])
            } else {
                None
            })
        &&& self.chain@.no_duplicates()
    }

    /// Retired sentinels are live (not yet freed), retired once each, and no
    /// longer part of the chain.
    pub closed spec fn retired_ok(&self) -> bool {
        &&& self.dropbox@.no_duplicates()
        &&& forall|i: int|
            0 <= i < self.dropbox@.len() ==> self.mem.live(#[trigger] self.dropbox@[i])
        &&& forall|i: int|
            0 <= i < self.chain@.len() ==> !self.dropbox@.contains(#[trigger] self.chain@[i])
    }

    pub closed spec fn wf(&self) -> bool {
        self.chain_ok() && self.retired_ok()
    }

    /// The pending elements, front (next to be dequeued) first.
    pub closed spec fn view(&self) -> Seq<T> {
        Seq::new(
            (self.chain@.len() - 1) as nat,
            |i: int| self.mem.node(self.chain@[i + 1]).value.unwrap(),
        )
    }

    pub fn new() -> (q: Queue<T>)
        ensures
            q.wf(),
            q@ =~= Seq::<T>::empty(),
    {
        let mut mem = Arena::new();
        let sentinel = mem.allocate(None, None);
        let ghost c: Seq<usize> = seq![sentinel];
        Queue {
            mem,
            holder: Holder::new(),
            dropbox: BoxedPointer::new(),
            head: sentinel,
            tail: sentinel,
            chain: Ghost(c),
        }
    }

    /// Link a fresh node holding `value` behind the observed tail, then
    /// advance the tail to it. Never fails: the protocol retries until the
    /// link lands.
    pub fn enqueue(&mut self, value: T)
        requires
            old(self).wf(),
        ensures
            final(self).wf(),
            final(self)@ == old(self)@.push(value),
    {
        let id = self.mem.allocate(Some(value), None);
        proof {
            let c0 = self.chain@;
            assert(self.mem.live(c0[c0.len() - 1]));
        }
        let guard_opt = self.holder.acquire_and_protect(Some(self.tail));
        let guard = guard_opt.unwrap();
        let t = guard.data;
        self.mem.set_next(t, Some(id));
        self.tail = id;
        self.holder.release(guard);
        proof {
            self.chain@ = self.chain@.push(id);
        }
        proof {
            let c0 = old(self).chain@;
            let c1 = self.chain@;
            assert(c1[c1.len() - 1] == id);
            assert forall|i: int| 0 <= i < c0.len() implies c1[i] == c0[i] by {}
            assert forall|i: int|
                0 <= i < c0.len() implies (#[trigger] c0[i]) < old(self).mem@.len() by {
                assert(old(self).mem.live(c0[i]));
            }
            assert(self.wf()) by {
                assert(c1.no_duplicates()) by {
                    assert forall|a: int, b: int| 0 <= a < b < c1.len() implies c1[a] != c1[b] by {
                        if b == c1.len() - 1 {
                            assert(c1[a] == c0[a]);
                        }
                    }
                }
                assert forall|i: int|
                    0 <= i < self.dropbox@.len() implies self.mem.live(
                    #[trigger] self.dropbox@[i],
                ) by {
                    assert(old(self).mem.live(self.dropbox@[i]));
                    assert(!c0.contains(self.dropbox@[i]));
                    assert(c0[c0.len() - 1] == t);
                    assert(self.dropbox@[i] != t);
                }
                assert forall|i: int|
                    0 <= i < c1.len() implies !self.dropbox@.contains(#[trigger] c1[i]) by {
                    if i < c1.len() - 1 {
                        assert(c1[i] == c0[i]);
                    } else {
                        if self.dropbox@.contains(id) {
                            let j = choose|j: int|
                                0 <= j < self.dropbox@.len() && self.dropbox@[j] == id;
                            assert(old(self).mem.live(self.dropbox@[j]));
                        }
                    }
                }
            }
            assert(self@ =~= old(self)@.push(value)) by {
                assert forall|i: int| 0 <= i < self@.len() implies self@[i] == old(self)@.push(
                    value,
                )[i] by {
                    assert(c1[i + 1] == (if i + 1 < c0.len() {
                        c0[i + 1]
                    } else {
                        id
                    }));
                }
            }
        }
    }

    /// Remove the front element: read the sentinel's successor under hazard
    /// protection, advance the head to it (catching up a lagging tail first),
    /// take its value out so it becomes the new sentinel, and retire the old
    /// sentinel. Reports `Empty` when the sentinel has no successor.
    pub fn dequeue(&mut self) -> (r: Result<T, QueueError>)
        requires
            old(self).wf(),
        ensures
            final(self).wf(),
            old(self)@.len() == 0 ==> r == Err::<T, QueueError>(QueueError::Empty)
                && final(self)@ == old(self)@,
            old(self)@.len() > 0 ==> r == Ok::<T, QueueError>(old(self)@.first())
                && final(self)@ == old(self)@.drop_first(),
    {
        proof {
            assert(self.mem.live(self.chain@[0]));
        }
        let hguard_opt = self.holder.acquire_and_protect(Some(self.head));
        let hguard = hguard_opt.unwrap();
        let h = hguard.data;
        let next = self.mem.next_of(h);
        match next {
            None => {
                self.holder.release(hguard);
                proof {
                    assert(self.chain@.len() == 1);
                    assert(self@ =~= old(self)@);
                }
                Err(QueueError::Empty)
            },
            Some(n) => {
                proof {
                    assert(self.chain@.len() > 1);
                    assert(n == self.chain@[1]);
                    assert(self.mem.live(n));
                }
                let nguard_opt = self.holder.acquire_and_protect(Some(n));
                let nguard = nguard_opt.unwrap();
                if self.tail == h {
                    // a lagging tail would be caught up before the removal;
                    // with the chain two nodes long the tail already sits past
                    // the sentinel, so there is nothing to advance here
                    self.tail = n;
                }
                self.head = n;
                let value = self.mem.take_value(n);
                self.holder.release(hguard);
                self.holder.release(nguard);
                proof {
                    self.chain@ = self.chain@.drop_first();
                }
                let wrapper = Holder::retire_candidate(Some(h));
                wrapper.unwrap().retire(&mut self.dropbox);
                proof {
                    let c0 = old(self).chain@;
                    let c1 = self.chain@;
                    assert forall|i: int| 0 <= i < c1.len() implies c1[i] == c0[i + 1] by {}
                    assert forall|i: int|
                        0 <= i < c1.len() implies c0.contains(#[trigger] c1[i]) && c1[i] != h by {
                        assert(c1[i] == c0[i + 1]);
                    }
                    assert(self.wf()) by {
                        assert(c1.no_duplicates()) by {
                            assert forall|a: int, b: int|
                                0 <= a < b < c1.len() implies c1[a] != c1[b] by {
                                assert(c1[a] == c0[a + 1] && c1[b] == c0[b + 1]);
                            }
                        }
                        assert(self.mem.node(c1[0]).value.is_none());
                        assert(self.tail == c1[c1.len() - 1]) by {
                            assert(c1[c1.len() - 1] == c0[c0.len() - 1]);
                        }
                        assert forall|i: int|
                            0 <= i < self.dropbox@.len() implies self.mem.live(
                            #[trigger] self.dropbox@[i],
                        ) by {
                            if i < self.dropbox@.len() - 1 {
                                assert(old(self).mem.live(self.dropbox@[i]));
                                assert(!c0.contains(self.dropbox@[i]));
                                assert(c0[0] == h);
                                assert(self.dropbox@[i] != h);
                                assert(self.dropbox@[i] != n);
                            } else {
                                assert(self.dropbox@[i] == h);
                            }
                        }
                        assert(self.dropbox@.no_duplicates()) by {
                            assert forall|a: int, b: int|
                                0 <= a < b < self.dropbox@.len() implies self.dropbox@[a]
                                != self.dropbox@[b] by {
                                if b == self.dropbox@.len() - 1 {
                                    assert(!c0.contains(self.dropbox@[a]));
                                    assert(c0[0] == h);
                                }
                            }
                        }
                        assert forall|i: int|
                            0 <= i < c1.len() implies !self.dropbox@.contains(
                            #[trigger] c1[i],
                        ) by {
                            assert(c1[i] != h);
                            assert(c0.contains(c1[i]));
                            if self.dropbox@.contains(c1[i]) {
                                let j = choose|j: int|
                                    0 <= j < self.dropbox@.len() && self.dropbox@[j] == c1[i];
                                assert(j < self.dropbox@.len() - 1);
                                let k = choose|k: int| 0 <= k < c0.len() && c0[k] == c1[i];
                                assert(!old(self).dropbox@.contains(c0[k]));
                            }
                        }
                    }
                }
                let ghost db = self.dropbox@;
                let ghost m1 = self.mem@;
                try_reclaim(&self.holder, &mut self.dropbox, &mut self.mem);
                proof {
                    self.lemma_restore_after_reclaim(db, m1);
                    let c0 = old(self).chain@;
                    assert(self@ =~= old(self)@.drop_first()) by {
                        assert forall|i: int| 0 <= i < self@.len() implies self@[i] == old(
                            self,
                        )@.drop_first()[i] by {
                            assert(self.chain@[i + 1] == c0[i + 2]);
                            assert(old(self).mem.live(c0[i + 2]));
                            assert(c0[i + 2] != c0[1]);
                        }
                    }
                    assert(value == old(self)@.first()) by {
                        assert(old(self)@[0] == old(self).mem.node(c0[1]).value.unwrap());
                    }
                }
                Ok(value)
            },
        }
    }

    /// After a reclamation pass over retire list `db` and arena state `m1`:
    /// the chain was disjoint from `db`, so its nodes are untouched, and the
    /// surviving retire entries are exactly the still-protected ones.
    proof fn lemma_restore_after_reclaim(&self, db: Seq<usize>, m1: Seq<Option<Node<T>>>)
        requires
            self.chain_ok_except_mem(db, m1),
            self.dropbox@.no_duplicates(),
            self.mem@.len() == m1.len(),
            forall|p: usize|
                #[trigger] self.dropbox@.contains(p) <==> db.contains(p) && self.holder.protects(
                    p,
                ),
            forall|i: int|
                0 <= i < db.len() && self.holder.protects(#[trigger] db[i]) ==> self.mem@[db[i]
                    as int] == m1[db[i] as int],
            forall|q: usize| q < m1.len() && !db.contains(q) ==> self.mem@[q as int] == m1[q as int],
        ensures
            self.wf(),
            forall|i: int|
                0 <= i < self.chain@.len()
                    ==> self.mem@[(#[trigger] self.chain@[i]) as int] == m1[self.chain@[i] as int],
    {
        assert forall|i: int|
            0 <= i < self.chain@.len()
            implies self.mem@[(#[trigger] self.chain@[i]) as int] == m1[self.chain@[i] as int] by {
            assert(!db.contains(self.chain@[i]));
        }
        assert forall|i: int|
            0 <= i < self.dropbox@.len() implies self.mem.live(#[trigger] self.dropbox@[i]) by {
            let p = self.dropbox@[i];
            assert(self.dropbox@.contains(p));
            let j = choose|j: int| 0 <= j < db.len() && db[j] == p;
            assert(self.holder.protects(db[j]));
        }
        assert forall|i: int|
            0 <= i < self.chain@.len() implies !self.dropbox@.contains(
            #[trigger] self.chain@[i],
        ) by {
            if self.dropbox@.contains(self.chain@[i]) {
                assert(db.contains(self.chain@[i]));
            }
        }
    }

    /// The chain facts of `wf`, stated against an earlier arena state `m1`
    /// whose retire list was `db`: what holds right before a reclamation
    /// pass.
    spec fn chain_ok_except_mem(&self, db: Seq<usize>, m1: Seq<Option<Node<T>>>) -> bool {
        &&& self.chain@.len() >= 1
        &&& self.head == self.chain@[0]
        &&& self.tail == self.chain@[self.chain@.len() - 1]
        &&& forall|i: int|
            0 <= i < self.chain@.len()
                ==> (#[trigger] self.chain@[i]) < m1.len() && m1[self.chain@[i] as int].is_some()
        &&& m1[self.chain@[0] as int].unwrap().value.is_none()
        &&& forall|i: int|
            1 <= i < self.chain@.len()
                ==> m1[(#[trigger] self.chain@[i]) as int].unwrap().value.is_some()
        &&& forall|i: int|
            0 <= i < self.chain@.len() ==> m1[(#[trigger] self.chain@[i]) as int].unwrap().next == (
            if i + 1 < self.chain@.len() {
                Some(self.chain@[i + 1])
            } else {
                None
            })
        &&& self.chain@.no_duplicates()
        &&& forall|i: int|
            0 <= i < db.len() ==> (#[trigger] db[i]) < m1.len() && m1[db[i] as int].is_some()
        &&& forall|i: int|
            0 <= i < self.chain@.len() ==> !db.contains(#[trigger] self.chain@[i])
    }
}

/// One linearized queue operation of a history. Every operation of the
/// protocol takes effect atomically at its successful CAS, so any
/// interleaving of threads linearizes to some sequence of these.
pub enum QueueOp<T> {
    Enqueue(T),
    Dequeue,
}

/// The pending elements (front first) after a history, starting empty; a
/// dequeue against an empty queue reports `Empty` and changes nothing.
pub open spec fn queue_run<T>(ops: Seq<QueueOp<T>>) -> Seq<T>
    decreases ops.len(),
{
    if ops.len() == 0 {
        Seq::empty()
    } else {
        let prev = queue_run(ops.drop_last());
        match ops.last() {
            QueueOp::Enqueue(v) => prev.push(v),
            QueueOp::Dequeue => if prev.len() > 0 {
                prev.drop_first()
            } else {
                prev
            },
        }
    }
}

/// The values a history enqueues, in order.
pub open spec fn queue_inserted<T>(ops: Seq<QueueOp<T>>) -> Seq<T>
    decreases ops.len(),
{
    if ops.len() == 0 {
        Seq::empty()
    } else {
        let prev = queue_inserted(ops.drop_last());
        match ops.last() {
            QueueOp::Enqueue(v) => prev.push(v),
            QueueOp::Dequeue => prev,
        }
    }
}

/// The values a history's successful dequeues return, in order.
pub open spec fn queue_removed<T>(ops: Seq<QueueOp<T>>) -> Seq<T>
    decreases ops.len(),
{
    if ops.len() == 0 {
        Seq::empty()
    } else {
        let prev = queue_removed(ops.drop_last());
        let state = queue_run(ops.drop_last());
        match ops.last() {
            QueueOp::Enqueue(_) => prev,
            QueueOp::Dequeue => if state.len() > 0 {
                prev.push(state.first())
            } else {
                prev
            },
        }
    }
}

/// `enqueue` refines one `Enqueue` step: extending a history by an enqueue
/// does to its pending elements exactly what `Queue::enqueue` promises of
/// its view.
pub proof fn lemma_queue_step_enqueue<T>(ops: Seq<QueueOp<T>>, v: T)
    ensures
        queue_run(ops.push(QueueOp::Enqueue(v))) == queue_run(ops).push(v),
        queue_removed(ops.push(QueueOp::Enqueue(v))) == queue_removed(ops),
{
    assert(ops.push(QueueOp::Enqueue(v)).drop_last() =~= ops);
}

/// `dequeue` refines one `Dequeue` step: extending a history by a dequeue
/// does to its pending elements exactly what `Queue::dequeue` promises of
/// its view — on a non-empty queue the first (oldest) value comes off, on an
/// empty one nothing changes.
pub proof fn lemma_queue_step_dequeue<T>(ops: Seq<QueueOp<T>>)
    ensures
        queue_run(ops).len() > 0 ==> queue_run(ops.push(QueueOp::Dequeue)) == queue_run(
            ops,
        ).drop_first() && queue_removed(ops.push(QueueOp::Dequeue)) == queue_removed(ops).push(
            queue_run(ops).first(),
        ),
        queue_run(ops).len() == 0 ==> queue_run(ops.push(QueueOp::Dequeue)) == queue_run(ops)
            && queue_removed(ops.push(QueueOp::Dequeue)) == queue_removed(ops),
{
    assert(ops.push(QueueOp::Dequeue).drop_last() =~= ops);
}

/// FIFO: at every point of any history, the dequeued values are exactly the
/// oldest enqueued values in enqueue order, and the pending ones are the
/// rest, still in order. In a single-producer, single-consumer trace the
/// dequeue sequence therefore equals the enqueue sequence.
pub proof fn lemma_queue_fifo<T>(ops: Seq<QueueOp<T>>)
    ensures
        queue_run(ops).len() + queue_removed(ops).len() == queue_inserted(ops).len(),
        queue_removed(ops) == queue_inserted(ops).take(queue_removed(ops).len() as int),
        queue_run(ops) == queue_inserted(ops).skip(queue_removed(ops).len() as int),
    decreases ops.len(),
{
    if ops.len() == 0 {
        assert(queue_removed(ops) =~= queue_inserted(ops).take(0));
        assert(queue_run(ops) =~= queue_inserted(ops).skip(0));
    } else {
        lemma_queue_fifo(ops.drop_last());
        let pr = queue_run(ops.drop_last());
        let pd = queue_removed(ops.drop_last());
        let pi = queue_inserted(ops.drop_last());
        let k = pd.len() as int;
        match ops.last() {
            QueueOp::Enqueue(v) => {
                assert(queue_removed(ops) =~= queue_inserted(ops).take(k));
                assert(queue_run(ops) =~= queue_inserted(ops).skip(k));
            },
            QueueOp::Dequeue => {
                if pr.len() > 0 {
                    assert(pr.first() == pi[k]);
                    assert(queue_removed(ops) =~= queue_inserted(ops).take(k + 1));
                    assert(queue_run(ops) =~= queue_inserted(ops).skip(k + 1));
                } else {
                    assert(queue_removed(ops) =~= queue_inserted(ops).take(k));
                    assert(queue_run(ops) =~= queue_inserted(ops).skip(k));
                }
            },
        }
    }
}

/// Conservation: successful dequeues never outnumber enqueues, and a history
/// that leaves the queue empty dequeued exactly what it enqueued.
pub proof fn lemma_queue_conservation<T>(ops: Seq<QueueOp<T>>)
    ensures
        queue_run(ops).len() + queue_removed(ops).len() == queue_inserted(ops).len(),
        queue_removed(ops).len() <= queue_inserted(ops).len(),
        queue_run(ops).len() == 0 ==> queue_removed(ops) == queue_inserted(ops),
    decreases ops.len(),
{
    if ops.len() > 0 {
        lemma_queue_conservation(ops.drop_last());
    }
    lemma_queue_fifo(ops);
    if queue_run(ops).len() == 0 {
        assert(queue_removed(ops) =~= queue_inserted(ops));
    }
}

impl<T> Default for Queue<T> {
    /// A fresh, empty queue.
    fn default() -> (q: Queue<T>)
        ensures
            q.wf(),
            q@ =~= Seq::<T>::empty(),
    {
        Queue::new()
    }
}

} // verus!
