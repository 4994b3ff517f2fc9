//! Hazard-pointer safe-memory-reclamation: an arena of nodes addressed by id,
//! a registry of hazard records (`Holder`), a retire list (`BoxedPointer`),
//! and the reclamation pass (`try_reclaim`).
//!
//! A pointer is modelled as an arena id. Ids are never reused, which is what
//! rules the ABA problem out of the model. A node that has been logically
//! removed from a structure is appended to the retire list; the reclamation
//! pass frees exactly those retired nodes that no hazard record protects, so
//! a reader that published an id before the node was retired can still read
//! it safely until the reader releases its guard.

use vstd::prelude::*;

verus! {

/// A heap node: one element's value and the id of the next node, if any.
/// A queue sentinel carries no value.
pub struct Node<T> {
    pub value: Option<T>,
    pub next: Option<usize>,
}

/// Owns every node of one structure. Slot `id` holds `Some(node)` while the
/// node is live and `None` once it has been reclaimed; slots are never reused.
pub struct Arena<T> {
    slots: Vec<Option<Node<T>>>,
}

impl<T> Arena<T> {
    pub closed spec fn view(&self) -> Seq<Option<Node<T>>> {
        self.slots@
    }

    /// Slot `id` is allocated and not yet freed.
    pub open spec fn live(&self, id: usize) -> bool {
        id < self@.len() && self@[id as int].is_some()
    }

    /// The node in a live slot.
    pub open spec fn node(&self, id: usize) -> Node<T>
        recommends
            self.live(id),
    {
        self@[id as int].unwrap()
    }

    pub fn new() -> (a: Arena<T>)
        ensures
            a@ =~= Seq::<Option<Node<T>>>::empty(),
    {
        Arena { slots: Vec::new() }
    }

    /// Allocate a fresh node; the returned id has never been handed out before.
    pub fn allocate(&mut self, value: Option<T>, next: Option<usize>) -> (id: usize)
        ensures
            id as int == old(self)@.len(),
            final(self)@ == old(self)@.push(Some((Node { value, next }))),
    {
        let id = self.slots.len();
        self.slots.push(Some(Node { value, next }));
        id
    }

    /// Free a live slot. Only `try_reclaim` calls this: freeing is the one
    /// irreversible step, and it is kept behind the hazard scan.
    fn free(&mut self, id: usize)
        requires
            old(self).live(id),
        ensures
            final(self)@ == old(self)@.update(id as int, None),
    {
        let _ = self.slots.remove(id);
        self.slots.insert(id, None);
        proof {
            assert(self@ =~= old(self)@.update(id as int, None));
        }
    }

    /// Read the `next` link of a live node.
    pub fn next_of(&self, id: usize) -> (n: Option<usize>)
        requires
            self.live(id),
        ensures
            n == self.node(id).next,
    {
        match &self.slots[id] {
            Some(node) => node.next,
            None => None,
        }
    }

    /// Redirect the `next` link of a live node; its value is untouched.
    pub fn set_next(&mut self, id: usize, next: Option<usize>)
        requires
            old(self).live(id),
        ensures
            final(self)@.len() == old(self)@.len(),
            final(self).live(id),
            final(self).node(id).value == old(self).node(id).value,
            final(self).node(id).next == next,
            forall|j: int| 0 <= j < old(self)@.len() && j != id ==> final(self)@[j] == old(self)@[j],
    {
        let slot = self.slots.remove(id);
        let node = slot.unwrap();
        self.slots.insert(id, Some(Node { value: node.value, next }));
    }

    /// Move the value out of a live node, leaving the node in place with no
    /// value (the queue turns the node it read into the new sentinel this way).
    pub fn take_value(&mut self, id: usize) -> (v: T)
        requires
            old(self).live(id),
            old(self).node(id).value.is_some(),
        ensures
            v == old(self).node(id).value.unwrap(),
            final(self)@.len() == old(self)@.len(),
            final(self).live(id),
            final(self).node(id).value.is_none(),
            final(self).node(id).next == old(self).node(id).next,
            forall|j: int| 0 <= j < old(self)@.len() && j != id ==> final(self)@[j] == old(self)@[j],
    {
        let slot = self.slots.remove(id);
        let node = slot.unwrap();
        let Node { value, next } = node;
        self.slots.insert(id, Some(Node { value: None, next }));
        value.unwrap()
    }

    /// Whether slot `id` still holds a live node.
    pub fn is_live(&self, id: usize) -> (b: bool)
        ensures
            b == self.live(id),
    {
        id < self.slots.len() && self.slots[id].is_some()
    }
}

/// Proof that a hazard record currently publishes a given id: handed out by
/// `acquire_and_protect`, given back to `release`.
pub struct Guard {
    /// Index of the hazard record that holds the publication.
    pub record: usize,
    /// The protected id, safe to dereference while the guard is held.
    pub data: usize,
}

/// The hazard registry: one record per outstanding publication. While a
/// record holds `Some(p)`, the reclamation pass must not free node `p`.
pub struct Holder {
    records: Vec<Option<usize>>,
}

impl Holder {
    pub closed spec fn view(&self) -> Seq<Option<usize>> {
        self.records@
    }

    /// Some hazard record currently publishes `p`.
    pub open spec fn protects(&self, p: usize) -> bool {
        exists|i: int| 0 <= i < self@.len() && self@[i] == Some(p)
    }

    /// The guard corresponds to a record that still publishes its id.
    pub open spec fn guard_valid(&self, g: Guard) -> bool {
        g.record < self@.len() && self@[g.record as int] == Some(g.data)
    }

    pub fn new() -> (h: Holder)
        ensures
            h@ =~= Seq::<Option<usize>>::empty(),
            forall|p: usize| !h.protects(p),
    {
        Holder { records: Vec::new() }
    }

    /// Read a shared slot and, if it holds an id, publish that id in a fresh
    /// hazard record before handing the caller a guard exposing it. A null
    /// slot yields nothing to protect.
    pub fn acquire_and_protect(&mut self, slot: Option<usize>) -> (g: Option<Guard>)
        ensures
            slot.is_none() ==> g.is_none() && final(self)@ == old(self)@,
            slot.is_some() ==> g.is_some() && g.unwrap().data == slot.unwrap()
                && g.unwrap().record as int == old(self)@.len()
                && final(self)@ == old(self)@.push(Some(slot.unwrap()))
                && final(self).guard_valid(g.unwrap()),
            forall|p: usize| final(self).protects(p) <==> (old(self).protects(p) || slot == Some(p)),
    {
        match slot {
            None => None,
            Some(p) => {
                let record = self.records.len();
                self.records.push(Some(p));
                proof {
                    assert(self@[record as int] == Some(p));
                    assert forall|q: usize| self.protects(q) <==> (old(self).protects(q) || slot
                        == Some(q)) by {
                        if old(self).protects(q) {
                            let i = choose|i: int|
                                0 <= i < old(self)@.len() && old(self)@[i] == Some(q);
                            assert(self@[i] == Some(q));
                        }
                        if self.protects(q) && q != p {
                            let i = choose|i: int| 0 <= i < self@.len() && self@[i] == Some(q);
                            assert(old(self)@[i] == Some(q));
                        }
                    }
                }
                Some(Guard { record, data: p })
            },
        }
    }

    /// Clear the hazard record behind a guard; the id it published becomes
    /// eligible for reclamation again (unless another record also holds it).
    pub fn release(&mut self, g: Guard)
        requires
            old(self).guard_valid(g),
        ensures
            final(self)@ == old(self)@.update(g.record as int, None),
    {
        let _ = self.records.remove(g.record);
        self.records.insert(g.record, None);
        proof {
            assert(self@ =~= old(self)@.update(g.record as int, None));
        }
    }

    /// Whether any hazard record currently publishes `p`.
    pub fn is_protected(&self, p: usize) -> (b: bool)
        ensures
            b == self.protects(p),
    {
        let n = self.records.len();
        let mut i: usize = 0;
        while i < n
            invariant
                n as int == self@.len(),
                0 <= i <= n,
                forall|j: int| 0 <= j < i ==> self@[j] != Some(p),
            decreases n - i,
        {
            match &self.records[i] {
                Some(q) => {
                    if *q == p {
                        proof {
                            assert(self@[i as int] == Some(p));
                        }
                        return true;
                    }
                },
                None => {},
            }
            i = i + 1;
        }
        false
    }

    /// Wrap an id that is about to be logically removed; a null value has
    /// nothing to retire. Consuming the wrapper moves the id into a retire
    /// list.
    pub fn retire_candidate(old_value: Option<usize>) -> (w: Option<Doer>)
        ensures
            old_value.is_none() ==> w.is_none(),
            old_value.is_some() ==> w.is_some() && w.unwrap()@ == old_value.unwrap(),
    {
        match old_value {
            None => None,
            Some(p) => Some(Doer { ptr: p }),
        }
    }

    /// Swap a shared slot to a new value and wrap whatever id it held, ready
    /// to be retired; a slot that held null yields no wrapper.
    pub fn swap(slot: &mut Option<usize>, new: Option<usize>) -> (w: Option<Doer>)
        ensures
            *final(slot) == new,
            old(slot).is_none() ==> w.is_none(),
            old(slot).is_some() ==> w.is_some() && w.unwrap()@ == old(slot).unwrap(),
    {
        let prev = *slot;
        *slot = new;
        match prev {
            None => None,
            Some(p) => Some(Doer { ptr: p }),
        }
    }
}

impl Default for Holder {
    fn default() -> (h: Holder)
        ensures
            h@ =~= Seq::<Option<usize>>::empty(),
            forall|p: usize| !h.protects(p),
    {
        Holder::new()
    }
}

/// The retire list: custody of ids that were unlinked from a structure but
/// may still be observed through a hazard record.
pub struct BoxedPointer {
    entries: Vec<usize>,
}

impl BoxedPointer {
    pub closed spec fn view(&self) -> Seq<usize> {
        self.entries@
    }

    pub fn new() -> (b: BoxedPointer)
        ensures
            b@ =~= Seq::<usize>::empty(),
    {
        BoxedPointer { entries: Vec::new() }
    }

    /// Add a retired id; entries are only ever removed by `try_reclaim`.
    pub fn append(&mut self, p: usize)
        ensures
            final(self)@ == old(self)@.push(p),
    {
        self.entries.push(p);
    }

    pub fn len(&self) -> (n: usize)
        ensures
            n as int == self@.len(),
    {
        self.entries.len()
    }
}

/// Capability over one retired id: consuming it places the id in a retire
/// list, after which only a reclamation pass may free the node.
pub struct Doer {
    ptr: usize,
}

impl Doer {
    pub closed spec fn view(&self) -> usize {
        self.ptr
    }

    /// Move the wrapped id into the retire list.
    pub fn retire(self, dropbox: &mut BoxedPointer)
        ensures
            final(dropbox)@ == old(dropbox)@.push(self@),
    {
        dropbox.append(self.ptr);
    }
}

proof fn lemma_push_contains<A>(s: Seq<A>, x: A, q: A)
    ensures
        s.push(x).contains(q) <==> (s.contains(q) || q == x),
{
    if s.contains(q) {
        let j = choose|j: int| 0 <= j < s.len() && s[j] == q;
        assert(s.push(x)[j] == q);
    }
    if q == x {
        assert(s.push(x)[s.len() as int] == q);
    }
    if s.push(x).contains(q) {
        let j = choose|j: int| 0 <= j < s.push(x).len() && s.push(x)[j] == q;
        if j < s.len() {
            assert(s[j] == q);
        }
    }
}

/// The reclamation pass: frees exactly those retired nodes that no hazard
/// record protects, and keeps the rest retired. This is the whole
/// use-after-free argument of the scheme: a retired id that is still
/// published by some record survives the pass with its node untouched, and a
/// node that was never retired is never freed at all.
pub fn try_reclaim<T>(holder: &Holder, dropbox: &mut BoxedPointer, mem: &mut Arena<T>)
    requires
        old(dropbox)@.no_duplicates(),
        forall|i: int| 0 <= i < old(dropbox)@.len() ==> old(mem).live(#[trigger] old(dropbox)@[i]),
    ensures
        final(dropbox)@.no_duplicates(),
        final(mem)@.len() == old(mem)@.len(),
        forall|p: usize|
            #[trigger] final(dropbox)@.contains(p) <==> old(dropbox)@.contains(p)
                && holder.protects(p),
        forall|i: int|
            0 <= i < old(dropbox)@.len() && holder.protects(#[trigger] old(dropbox)@[i])
                ==> final(mem)@[old(dropbox)@[i] as int] == old(mem)@[old(dropbox)@[i] as int],
        forall|i: int|
            0 <= i < old(dropbox)@.len() && !holder.protects(#[trigger] old(dropbox)@[i])
                ==> final(mem)@[old(dropbox)@[i] as int].is_none(),
        forall|q: usize|
            q < old(mem)@.len() && !old(dropbox)@.contains(q)
                ==> final(mem)@[q as int] == old(mem)@[q as int],
{
    let ghost all = old(dropbox)@;
    let n = dropbox.entries.len();
    let mut kept: Vec<usize> = Vec::new();
    let mut i: usize = 0;
    while i < n
        invariant
            n as int == all.len(),
            0 <= i <= n,
            dropbox@ == all,
            all.no_duplicates(),
            forall|j: int| 0 <= j < n ==> old(mem).live(#[trigger] all[j]),
            forall|j: int|
                i <= j < n ==> mem@[(#[trigger] all[j]) as int] == old(mem)@[all[j] as int],
            mem@.len() == old(mem)@.len(),
            kept@.no_duplicates(),
            forall|p: usize|
                #[trigger] kept@.contains(p) <==> all.take(i as int).contains(p)
                    && holder.protects(p),
            forall|j: int|
                0 <= j < i && holder.protects(#[trigger] all[j]) ==> mem@[all[j] as int] == old(
                    mem,
                )@[all[j] as int],
            forall|j: int|
                0 <= j < i && !holder.protects(#[trigger] all[j]) ==> mem@[all[j] as int].is_none(),
            forall|q: usize|
                q < old(mem)@.len() && !all.contains(q) ==> mem@[q as int] == old(mem)@[q as int],
        decreases n - i,
    {
        let p = dropbox.entries[i];
        let ghost kept0 = kept@;
        let ghost mem0 = mem@;
        proof {
            assert(all[i as int] == p);
            assert(all.take(i as int + 1) =~= all.take(i as int).push(p));
            assert(all.contains(p)) by {
                assert(all[i as int] == p);
            }
            assert(!all.take(i as int).contains(p)) by {
                if all.take(i as int).contains(p) {
                    let j = choose|j: int| 0 <= j < i && all.take(i as int)[j] == p;
                    assert(all[j] == all[i as int]);
                }
            }
        }
        if holder.is_protected(p) {
            kept.push(p);
            proof {
                assert(kept@ == kept0.push(p));
                assert(!kept0.contains(p));
                assert(kept@.no_duplicates()) by {
                    assert forall|a: int, b: int|
                        0 <= a < b < kept@.len() implies kept@[a] != kept@[b] by {
                        if b == kept@.len() - 1 {
                            assert(kept@[a] == kept0[a]);
                            if kept0[a] == p {
                                assert(kept0.contains(p));
                            }
                        }
                    }
                }
                assert forall|q: usize| #[trigger] kept@.contains(q) <==> all.take(
                    i as int + 1,
                ).contains(q) && holder.protects(q) by {
                    lemma_push_contains(kept0, p, q);
                    lemma_push_contains(all.take(i as int), p, q);
                }
            }
        } else {
            mem.free(p);
            proof {
                assert forall|q: usize| #[trigger] kept@.contains(q) <==> all.take(
                    i as int + 1,
                ).contains(q) && holder.protects(q) by {
                    lemma_push_contains(all.take(i as int), p, q);
                }
            }
        }
        proof {
            assert forall|j: int| 0 <= j < i + 1 implies all[j] == p <==> j == i by {
                assert(all.no_duplicates());
                assert(all[i as int] == p);
            }
            assert forall|j: int|
                0 <= j < i + 1 && holder.protects(#[trigger] all[j]) implies mem@[all[j] as int]
                == old(mem)@[all[j] as int] by {
                assert(all[j] != p || j == i);
                assert(j < i ==> mem@[all[j] as int] == mem0[all[j] as int]);
            }
            assert forall|j: int|
                0 <= j < i + 1 && !holder.protects(#[trigger] all[j]) implies mem@[all[j]
                as int].is_none() by {
                assert(all[j] != p || j == i);
                assert(j < i ==> mem@[all[j] as int] == mem0[all[j] as int]);
            }
        }
        i = i + 1;
    }
    proof {
        assert(all.take(n as int) =~= all);
    }
    dropbox.entries = kept;
}

} // verus!
