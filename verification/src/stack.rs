//! Treiber-style stack: a single head link into a chain of arena nodes,
//! with hazard-protected reads and deferred reclamation of deleted nodes.
//!
//! The retry cap of the concurrent protocol (give up after a bounded number
//! of lost races, unlike the queue's unbounded retry) only shows under
//! contention; a structure accessed through `&mut` wins its first attempt,
//! so `ContentionExhausted` is never actually produced here, but it remains
//! part of the operation surface.

use vstd::prelude::*;

use crate::hazard::try_reclaim;
use crate::hazard::Arena;
use crate::hazard::BoxedPointer;
use crate::hazard::Holder;
use crate::hazard::Node;

verus! {

/// Why a stack operation did not produce a value.
#[derive(Debug, PartialEq, Eq)]
pub enum StackError {
    /// The stack held no element: a normal negative result.
    Empty,
    /// The bounded CAS-retry budget was lost to concurrent mutators.
    ContentionExhausted,
}

/// The stack: `head` names the most recently inserted live node, each node's
/// `next` the one below it. Deleted nodes go to the retire list and are only
/// freed by the reclamation pass.
pub struct Stack<T> {
    mem: Arena<T>,
    holder: Holder,
    dropbox: BoxedPointer,
    head: Option<usize>,
    chain: Ghost<Seq<usize>>,
}

impl<T> Stack<T> {
    /// The linked chain from `head` is exactly `chain`: live, value-carrying,
    /// acyclic nodes.
    pub closed spec fn chain_ok(&self) -> bool {
        &&& self.head == (if self.chain@.len() == 0 {
            None
        } else {
            Some(self.chain@[0])
        })
        &&& forall|i: int|
            0 <= i < self.chain@.len() ==> self.mem.live(#[trigger] self.chain@[i])
        &&& forall|i: int|
            0 <= i < self.chain@.len() ==> self.mem.node(
                #[trigger] self.chain@[i],
            ).value.is_some()
        &&& forall|i: int|
            0 <= i < self.chain@.len() ==> self.mem.node(#[trigger] self.chain@[i]).next == (
            if i + 1 < self.chain@.len() {
                Some(self.chain@[i + 1])
            } else {
                None
            })
        &&& self.chain@.no_duplicates()
    }

    /// Retired nodes are live (not yet freed), retired once each, and no
    /// longer reachable from `head`.
    pub closed spec fn retired_ok(&self) -> bool {
        &&& self.dropbox@.no_duplicates()
        &&& forall|i: int|
            0 <= i < self.dropbox@.len() ==> self.mem.live(#[trigger] self.dropbox@[i])
        &&& forall|i: int|
            0 <= i < self.chain@.len() ==> !self.dropbox@.contains(#[trigger] self.chain@[i])
    }

    pub closed spec fn wf(&self) -> bool {
        self.chain_ok() && self.retired_ok()
    }

    /// The stack's contents, oldest first: the last element is the top.
    pub closed spec fn view(&self) -> Seq<T> {
        Seq::new(
            self.chain@.len(),
            |i: int|
                self.mem.node(self.chain@[self.chain@.len() - 1 - i]).value.unwrap(),
        )
    }

    pub fn new() -> (s: Stack<T>)
        ensures
            s.wf(),
            s@ =~= Seq::<T>::empty(),
    {
        Stack {
            mem: Arena::new(),
            holder: Holder::new(),
            dropbox: BoxedPointer::new(),
            head: None,
            chain: Ghost(Seq::empty()),
        }
    }

    /// Push a value: link a fresh node above the observed head. Succeeds on
    /// the first attempt here; under contention the protocol would retry a
    /// bounded number of times and then report `ContentionExhausted`.
    pub fn insert(&mut self, value: T) -> (r: Result<(), StackError>)
        requires
            old(self).wf(),
        ensures
            final(self).wf(),
            r.is_ok(),
            final(self)@ == old(self)@.push(value),
    {
        let guard = self.holder.acquire_and_protect(self.head);
        let current_head = match &guard {
            Some(g) => Some(g.data),
            None => None,
        };
        let id = self.mem.allocate(Some(value), current_head);
        self.head = Some(id);
        proof {
            self.chain@ = seq![id] + self.chain@;
        }
        match guard {
            Some(g) => self.holder.release(g),
            None => {},
        }
        proof {
            let c0 = old(self).chain@;
            assert forall|i: int| 0 <= i < c0.len() implies self.chain@[i + 1] == c0[i] by {}
            assert(self.wf()) by {
                assert forall|i: int|
                    0 <= i < self.chain@.len() implies self.mem.live(#[trigger] self.chain@[i])
                    && self.mem.node(self.chain@[i]).value.is_some() by {
                    if i > 0 {
                        assert(self.chain@[i] == c0[i - 1]);
                    }
                }
                assert(self.chain@.no_duplicates()) by {
                    assert forall|a: int, b: int|
                        0 <= a < b < self.chain@.len() implies self.chain@[a] != self.chain@[b] by {
                        if a == 0 {
                            assert(self.chain@[b] == c0[b - 1]);
                            assert(old(self).mem.live(c0[b - 1]));
                        } else {
                            assert(self.chain@[a] == c0[a - 1]);
                            assert(self.chain@[b] == c0[b - 1]);
                        }
                    }
                }
                assert forall|i: int|
                    0 <= i < self.chain@.len() implies !self.dropbox@.contains(
                    #[trigger] self.chain@[i],
                ) by {
                    if i == 0 {
                        if self.dropbox@.contains(id) {
                            let j = choose|j: int|
                                0 <= j < self.dropbox@.len() && self.dropbox@[j] == id;
                            assert(old(self).mem.live(self.dropbox@[j]));
                        }
                    } else {
                        assert(self.chain@[i] == c0[i - 1]);
                    }
                }
            }
        }
        let ghost db = self.dropbox@;
        let ghost m1 = self.mem@;
        try_reclaim(&self.holder, &mut self.dropbox, &mut self.mem);
        proof {
            self.lemma_restore_after_reclaim(db, m1);
            assert(self@ =~= old(self)@.push(value)) by {
                assert forall|i: int| 0 <= i < self@.len() implies self@[i] == old(self)@.push(
                    value,
                )[i] by {
                    let c0 = old(self).chain@;
                    if i < c0.len() {
                        assert(self.chain@[c0.len() - i] == c0[c0.len() - 1 - i]);
                        assert(old(self).mem.live(c0[c0.len() - 1 - i]));
                    }
                }
            }
        }
        Ok(())
    }

    /// Pop the top value: unlink the observed head, hand the old head to the
    /// retire list, and trigger an opportunistic reclamation pass. Reports
    /// `Empty` when there is nothing to remove.
    pub fn delete(&mut self) -> (r: Result<T, StackError>)
        requires
            old(self).wf(),
        ensures
            final(self).wf(),
            old(self)@.len() == 0 ==> r == Err::<T, StackError>(StackError::Empty)
                && final(self)@ == old(self)@,
            old(self)@.len() > 0 ==> r == Ok::<T, StackError>(old(self)@.last())
                && final(self)@ == old(self)@.drop_last(),
    {
        let guard = self.holder.acquire_and_protect(self.head);
        match guard {
            None => {
                let ghost db = self.dropbox@;
                let ghost m1 = self.mem@;
                try_reclaim(&self.holder, &mut self.dropbox, &mut self.mem);
                proof {
                    self.lemma_restore_after_reclaim(db, m1);
                    assert(self@ =~= old(self)@);
                }
                Err(StackError::Empty)
            },
            Some(g) => {
                let h = g.data;
                proof {
                    assert(self.chain@[0] == h);
                    assert(old(self)@.len() > 0);
                }
                let next = self.mem.next_of(h);
                self.head = next;
                let value = self.mem.take_value(h);
                self.holder.release(g);
                proof {
                    self.chain@ = self.chain@.drop_first();
                }
                let wrapper = Holder::retire_candidate(Some(h));
                wrapper.unwrap().retire(&mut self.dropbox);
                proof {
                    let c0 = old(self).chain@;
                    let c1 = self.chain@;
                    assert forall|i: int| 0 <= i < c1.len() implies c1[i] == c0[i + 1] by {}
                    assert forall|i: int|
                        0 <= i < c1.len() implies c0.contains(#[trigger] c1[i]) && c1[i] != h by {
                        assert(c1[i] == c0[i + 1]);
                    }
                    assert(self.wf()) by {
                        assert(c1.no_duplicates()) by {
                            assert forall|a: int, b: int|
                                0 <= a < b < c1.len() implies c1[a] != c1[b] by {
                                assert(c1[a] == c0[a + 1] && c1[b] == c0[b + 1]);
                            }
                        }
                        assert forall|i: int|
                            0 <= i < self.dropbox@.len() implies self.mem.live(
                            #[trigger] self.dropbox@[i],
                        ) by {
                            if i < self.dropbox@.len() - 1 {
                                assert(old(self).mem.live(self.dropbox@[i]));
                                assert(!c0.contains(self.dropbox@[i]));
                                assert(c0[0] == h);
                                assert(self.dropbox@[i] != h);
                            } else {
                                assert(self.dropbox@[i] == h);
                            }
                        }
                        assert(self.dropbox@.no_duplicates()) by {
                            assert forall|a: int, b: int|
                                0 <= a < b < self.dropbox@.len() implies self.dropbox@[a]
                                != self.dropbox@[b] by {
                                if b == self.dropbox@.len() - 1 {
                                    assert(!c0.contains(self.dropbox@[a]));
                                    assert(c0[0] == h);
                                }
                            }
                        }
                        assert forall|i: int|
                            0 <= i < c1.len() implies !self.dropbox@.contains(
                            #[trigger] c1[i],
                        ) by {
                            assert(c1[i] != h);
                            assert(c0.contains(c1[i]));
                            if self.dropbox@.contains(c1[i]) {
                                let j = choose|j: int|
                                    0 <= j < self.dropbox@.len() && self.dropbox@[j] == c1[i];
                                assert(j < self.dropbox@.len() - 1);
                                let k = choose|k: int| 0 <= k < c0.len() && c0[k] == c1[i];
                                assert(!old(self).dropbox@.contains(c0[k]));
                            }
                        }
                    }
                }
                let ghost db = self.dropbox@;
                let ghost m1 = self.mem@;
                try_reclaim(&self.holder, &mut self.dropbox, &mut self.mem);
                proof {
                    self.lemma_restore_after_reclaim(db, m1);
                    assert(self@ =~= old(self)@.drop_last()) by {
                        let c0 = old(self).chain@;
                        assert forall|i: int| 0 <= i < self@.len() implies self@[i] == old(
                            self,
                        )@.drop_last()[i] by {
                            assert(self.chain@[self.chain@.len() - 1 - i] == c0[c0.len() - 1 - i]);
                            assert(old(self).mem.live(c0[c0.len() - 1 - i]));
                            assert(c0[c0.len() - 1 - i] != c0[0] || c0.len() - 1 - i == 0);
                        }
                    }
                    assert(value == old(self)@.last()) by {
                        assert(old(self)@[old(self)@.len() - 1] == old(self).mem.node(
                            old(self).chain@[0],
                        ).value.unwrap());
                    }
                }
                Ok(value)
            },
        }
    }

    /// After a reclamation pass over retire list `db` and arena state `m1`:
    /// the chain was disjoint from `db`, so its nodes are untouched, and the
    /// surviving retire entries are exactly the still-protected ones.
    proof fn lemma_restore_after_reclaim(&self, db: Seq<usize>, m1: Seq<Option<Node<T>>>)
        requires
            self.chain_ok_except_mem(db, m1),
            self.dropbox@.no_duplicates(),
            self.mem@.len() == m1.len(),
            forall|p: usize|
                #[trigger] self.dropbox@.contains(p) <==> db.contains(p) && self.holder.protects(
                    p,
                ),
            forall|i: int|
                0 <= i < db.len() && self.holder.protects(#[trigger] db[i]) ==> self.mem@[db[i]
                    as int] == m1[db[i] as int],
            forall|q: usize| q < m1.len() && !db.contains(q) ==> self.mem@[q as int] == m1[q as int],
        ensures
            self.wf(),
            forall|i: int|
                0 <= i < self.chain@.len()
                    ==> self.mem@[(#[trigger] self.chain@[i]) as int] == m1[self.chain@[i] as int],
    {
        assert forall|i: int|
            0 <= i < self.chain@.len()
            implies self.mem@[(#[trigger] self.chain@[i]) as int] == m1[self.chain@[i] as int] by {
            assert(!db.contains(self.chain@[i]));
        }
        assert forall|i: int|
            0 <= i < self.dropbox@.len() implies self.mem.live(#[trigger] self.dropbox@[i]) by {
            let p = self.dropbox@[i];
            assert(self.dropbox@.contains(p));
            let j = choose|j: int| 0 <= j < db.len() && db[j] == p;
            assert(self.holder.protects(db[j]));
        }
        assert forall|i: int|
            0 <= i < self.chain@.len() implies !self.dropbox@.contains(
            #[trigger] self.chain@[i],
        ) by {
            if self.dropbox@.contains(self.chain@[i]) {
                assert(db.contains(self.chain@[i]));
            }
        }
    }

    /// The chain facts of `wf`, stated against an earlier arena state `m1`
    /// whose retire list was `db`: what holds right before a reclamation
    /// pass.
    spec fn chain_ok_except_mem(&self, db: Seq<usize>, m1: Seq<Option<Node<T>>>) -> bool {
        &&& self.head == (if self.chain@.len() == 0 {
            None
        } else {
            Some(self.chain@[0])
        })
        &&& forall|i: int|
            0 <= i < self.chain@.len()
                ==> (#[trigger] self.chain@[i]) < m1.len() && m1[self.chain@[i] as int].is_some()
        &&& forall|i: int|
            0 <= i < self.chain@.len() ==> m1[(#[trigger] self.chain@[i]) as int].unwrap().value.is_some()
        &&& forall|i: int|
            0 <= i < self.chain@.len() ==> m1[(#[trigger] self.chain@[i]) as int].unwrap().next == (
            if i + 1 < self.chain@.len() {
                Some(self.chain@[i + 1])
            } else {
                None
            })
        &&& self.chain@.no_duplicates()
        &&& forall|i: int| 0 <= i < db.len() ==> (#[trigger] db[i]) < m1.len() && m1[db[i] as int].is_some()
        &&& forall|i: int|
            0 <= i < self.chain@.len() ==> !db.contains(#[trigger] self.chain@[i])
    }
}

/// One linearized stack operation of a history. Every operation of the
/// protocol takes effect atomically at its successful CAS, so any
/// interleaving of threads linearizes to some sequence of these.
pub enum StackOp<T> {
    Insert(T),
    Delete,
}

/// The stack contents (oldest first) after a history, starting empty;
/// a delete against an empty stack reports `Empty` and changes nothing.
pub open spec fn stack_run<T>(ops: Seq<StackOp<T>>) -> Seq<T>
    decreases ops.len(),
{
    if ops.len() == 0 {
        Seq::empty()
    } else {
        let prev = stack_run(ops.drop_last());
        match ops.last() {
            StackOp::Insert(v) => prev.push(v),
            StackOp::Delete => if prev.len() > 0 {
                prev.drop_last()
            } else {
                prev
            },
        }
    }
}

/// The values a history inserts, in order.
pub open spec fn stack_inserted<T>(ops: Seq<StackOp<T>>) -> Seq<T>
    decreases ops.len(),
{
    if ops.len() == 0 {
        Seq::empty()
    } else {
        let prev = stack_inserted(ops.drop_last());
        match ops.last() {
            StackOp::Insert(v) => prev.push(v),
            StackOp::Delete => prev,
        }
    }
}

/// The values a history's successful deletes return, in order.
pub open spec fn stack_removed<T>(ops: Seq<StackOp<T>>) -> Seq<T>
    decreases ops.len(),
{
    if ops.len() == 0 {
        Seq::empty()
    } else {
        let prev = stack_removed(ops.drop_last());
        let state = stack_run(ops.drop_last());
        match ops.last() {
            StackOp::Insert(_) => prev,
            StackOp::Delete => if state.len() > 0 {
                prev.push(state.last())
            } else {
                prev
            },
        }
    }
}

/// `insert` refines one `Insert` step: extending a history by an insert does
/// to its contents exactly what `Stack::insert` promises of its view.
pub proof fn lemma_stack_step_insert<T>(ops: Seq<StackOp<T>>, v: T)
    ensures
        stack_run(ops.push(StackOp::Insert(v))) == stack_run(ops).push(v),
        stack_removed(ops.push(StackOp::Insert(v))) == stack_removed(ops),
{
    assert(ops.push(StackOp::Insert(v)).drop_last() =~= ops);
}

/// `delete` refines one `Delete` step: extending a history by a delete does
/// to its contents exactly what `Stack::delete` promises of its view — on a
/// non-empty stack the last (most recent) value comes off, on an empty one
/// nothing changes.
pub proof fn lemma_stack_step_delete<T>(ops: Seq<StackOp<T>>)
    ensures
        stack_run(ops).len() > 0 ==> stack_run(ops.push(StackOp::Delete)) == stack_run(
            ops,
        ).drop_last() && stack_removed(ops.push(StackOp::Delete)) == stack_removed(ops).push(
            stack_run(ops).last(),
        ),
        stack_run(ops).len() == 0 ==> stack_run(ops.push(StackOp::Delete)) == stack_run(ops)
            && stack_removed(ops.push(StackOp::Delete)) == stack_removed(ops),
{
    assert(ops.push(StackOp::Delete).drop_last() =~= ops);
}

/// Conservation: successful deletes never outnumber successful inserts, and
/// a history that leaves the stack empty deleted exactly as many values as
/// it inserted.
pub proof fn lemma_stack_conservation<T>(ops: Seq<StackOp<T>>)
    ensures
        stack_run(ops).len() + stack_removed(ops).len() == stack_inserted(ops).len(),
        stack_removed(ops).len() <= stack_inserted(ops).len(),
        stack_run(ops).len() == 0 ==> stack_removed(ops).len() == stack_inserted(ops).len(),
    decreases ops.len(),
{
    if ops.len() > 0 {
        lemma_stack_conservation(ops.drop_last());
    }
}

/// No lost updates: over any history, the deleted values together with the
/// values still on the stack are, as a multiset, exactly the inserted
/// values — nothing is returned twice and nothing vanishes. In particular, a
/// history that drains the stack returned each inserted value exactly once.
pub proof fn lemma_stack_no_lost_updates<T>(ops: Seq<StackOp<T>>)
    ensures
        stack_removed(ops).to_multiset().add(stack_run(ops).to_multiset()) == stack_inserted(
            ops,
        ).to_multiset(),
    decreases ops.len(),
{
    broadcast use vstd::seq_lib::group_to_multiset_ensures;

    if ops.len() == 0 {
        assert(stack_removed(ops).to_multiset().add(stack_run(ops).to_multiset())
            =~= stack_inserted(ops).to_multiset()) by {
            assert forall|x: T|
                stack_removed(ops).to_multiset().add(stack_run(ops).to_multiset()).count(x)
                    == stack_inserted(ops).to_multiset().count(x) by {
                assert(!Seq::<T>::empty().contains(x));
            }
        }
    } else {
        lemma_stack_no_lost_updates(ops.drop_last());
        let prev_run = stack_run(ops.drop_last());
        let prev_rem = stack_removed(ops.drop_last());
        let prev_ins = stack_inserted(ops.drop_last());
        match ops.last() {
            StackOp::Insert(v) => {
                assert(stack_removed(ops).to_multiset().add(stack_run(ops).to_multiset())
                    =~= stack_inserted(ops).to_multiset());
            },
            StackOp::Delete => {
                if prev_run.len() > 0 {
                    let l = prev_run.last();
                    assert(prev_run =~= prev_run.drop_last().push(l));
                    assert(prev_run.to_multiset() == prev_run.drop_last().to_multiset().insert(l));
                    assert(stack_removed(ops).to_multiset().add(stack_run(ops).to_multiset())
                        =~= stack_inserted(ops).to_multiset());
                }
            },
        }
    }
}

/// A consumer-only history: `n` deletes in a row.
pub open spec fn stack_deletes<T>(n: nat) -> Seq<StackOp<T>> {
    Seq::new(n, |i: int| StackOp::Delete)
}

/// Draining: appending exactly as many deletes as the stack holds removes
/// its contents most-recent-first and leaves it empty.
pub proof fn lemma_stack_drain_phase<T>(ops: Seq<StackOp<T>>)
    ensures
        stack_removed(ops + stack_deletes(stack_run(ops).len())) == stack_removed(ops)
            + stack_run(ops).reverse(),
        stack_run(ops + stack_deletes(stack_run(ops).len())) == Seq::<T>::empty(),
    decreases stack_run(ops).len(),
{
    let k = stack_run(ops).len();
    if k == 0 {
        assert(ops + stack_deletes(0) =~= ops);
        assert(stack_removed(ops) + stack_run(ops).reverse() =~= stack_removed(ops));
        assert(stack_run(ops) =~= Seq::<T>::empty());
    } else {
        let s = stack_run(ops);
        let ops2 = ops.push(StackOp::Delete);
        assert(ops2.drop_last() =~= ops);
        assert(stack_run(ops2) == s.drop_last());
        assert(stack_removed(ops2) == stack_removed(ops).push(s.last()));
        lemma_stack_drain_phase(ops2);
        assert(ops + stack_deletes(k) =~= ops2 + stack_deletes((k - 1) as nat));
        assert(stack_removed(ops) + s.reverse() =~= stack_removed(ops).push(s.last())
            + s.drop_last().reverse()) by {
            let a = stack_removed(ops).len() as int;
            assert forall|j: int|
                0 <= j < a + k implies (stack_removed(ops) + s.reverse())[j] == (stack_removed(
                ops,
            ).push(s.last()) + s.drop_last().reverse())[j] by {
                if j == a {
                    assert(s.reverse()[0] == s[k - 1]);
                } else if j > a {
                    assert(s.reverse()[j - a] == s[k - 1 - (j - a)]);
                    assert(s.drop_last().reverse()[j - a - 1] == s.drop_last()[k - 1 - (j - a)]);
                }
            }
        }
    }
}

/// LIFO over a full trace: inserting a sequence of values and then draining
/// the stack returns exactly those values, in reverse insertion order.
pub proof fn lemma_stack_lifo_trace<T>(vs: Seq<T>)
    ensures
        stack_removed(
            vs.map_values(|v: T| StackOp::Insert(v)) + stack_deletes(vs.len()),
        ) == vs.reverse(),
{
    let ops = vs.map_values(|v: T| StackOp::Insert(v));
    lemma_stack_insert_phase(vs);
    lemma_stack_drain_phase(ops);
    assert(Seq::<T>::empty() + vs.reverse() =~= vs.reverse());
}

/// An insert-only history leaves the stack holding exactly those values in
/// insertion order, with nothing removed: the producer half of the LIFO
/// trace.
pub proof fn lemma_stack_insert_phase<T>(vs: Seq<T>)
    ensures
        stack_run(vs.map_values(|v: T| StackOp::Insert(v))) == vs,
        stack_removed(vs.map_values(|v: T| StackOp::Insert(v))) == Seq::<T>::empty(),
        stack_inserted(vs.map_values(|v: T| StackOp::Insert(v))) == vs,
    decreases vs.len(),
{
    let ops = vs.map_values(|v: T| StackOp::Insert(v));
    if vs.len() == 0 {
        assert(stack_run(ops) =~= vs);
        assert(stack_inserted(ops) =~= vs);
    } else {
        lemma_stack_insert_phase(vs.drop_last());
        assert(ops.drop_last() =~= vs.drop_last().map_values(|v: T| StackOp::Insert(v)));
        assert(ops.last() == StackOp::Insert(vs.last()));
        assert(stack_run(ops) =~= vs);
        assert(stack_inserted(ops) =~= vs);
        assert(stack_removed(ops) =~= Seq::<T>::empty());
    }
}

} // verus!
