use fastack::hazard::{try_reclaim, Arena, BoxedPointer, Holder};
use fastack::queue::QueueError;
use fastack::stack::StackError;
use fastack::{Queue, Stack};

#[test]
fn stack_lifo_order() {
    let mut s = Stack::new();
    assert!(s.insert(10).is_ok());
    assert!(s.insert(20).is_ok());
    assert!(s.insert(30).is_ok());
    assert_eq!(s.delete(), Ok(30));
    assert_eq!(s.delete(), Ok(20));
    assert_eq!(s.delete(), Ok(10));
    assert_eq!(s.delete(), Err(StackError::Empty));
}

#[test]
fn stack_empty_reports_empty() {
    let mut s: Stack<i64> = Stack::new();
    assert_eq!(s.delete(), Err(StackError::Empty));
    assert!(s.insert(1).is_ok());
    assert_eq!(s.delete(), Ok(1));
    assert_eq!(s.delete(), Err(StackError::Empty));
}

#[test]
fn queue_fifo_order() {
    let mut q = Queue::new();
    q.enqueue(10);
    q.enqueue(20);
    q.enqueue(30);
    assert_eq!(q.dequeue(), Ok(10));
    assert_eq!(q.dequeue(), Ok(20));
    assert_eq!(q.dequeue(), Ok(30));
    assert_eq!(q.dequeue(), Err(QueueError::Empty));
}

#[test]
fn queue_empty_reports_empty() {
    let mut q: Queue<u8> = Queue::new();
    assert_eq!(q.dequeue(), Err(QueueError::Empty));
    q.enqueue(9);
    assert_eq!(q.dequeue(), Ok(9));
    assert_eq!(q.dequeue(), Err(QueueError::Empty));
}

#[test]
fn queue_default_is_empty() {
    let mut q: Queue<u8> = Queue::default();
    assert_eq!(q.dequeue(), Err(QueueError::Empty));
}

#[test]
fn queue_interleaved_stays_fifo() {
    let mut q = Queue::new();
    q.enqueue(1);
    q.enqueue(2);
    assert_eq!(q.dequeue(), Ok(1));
    q.enqueue(3);
    assert_eq!(q.dequeue(), Ok(2));
    assert_eq!(q.dequeue(), Ok(3));
    assert_eq!(q.dequeue(), Err(QueueError::Empty));
}

#[test]
fn conservation_every_insert_deleted_once() {
    // eight inserts and eight deletes: each inserted value comes back exactly
    // once, and the drained stack then reports Empty
    let n: usize = 8;
    let mut s = Stack::new();
    for i in 0..n {
        assert!(s.insert(i).is_ok());
    }
    let mut seen = vec![0usize; n];
    let mut removed = 0usize;
    for _ in 0..n {
        match s.delete() {
            Ok(v) => {
                removed += 1;
                seen[v] += 1;
            }
            Err(_) => panic!("delete lost an inserted value"),
        }
    }
    assert_eq!(removed, n);
    for count in seen {
        assert_eq!(count, 1);
    }
    assert_eq!(s.delete(), Err(StackError::Empty));
}

#[test]
fn holder_scenario_protected_pointer_survives_reclaim() {
    // a reader publishes p; another thread's removal retires p and runs a
    // reclamation pass: p must stay readable until the reader releases its
    // guard and a later pass runs
    let mut arena: Arena<&str> = Arena::new();
    let mut holder = Holder::new();
    let mut dropbox = BoxedPointer::new();
    let p = arena.allocate(Some("payload"), None);

    let guard = holder.acquire_and_protect(Some(p)).expect("slot held a pointer");
    try_reclaim(&holder, &mut dropbox, &mut arena);

    let wrapper = Holder::retire_candidate(Some(p)).expect("non-null pointer");
    wrapper.retire(&mut dropbox);
    try_reclaim(&holder, &mut dropbox, &mut arena);
    assert!(arena.is_live(p), "a protected pointer must not be freed");
    assert_eq!(dropbox.len(), 1);

    holder.release(guard);
    try_reclaim(&holder, &mut dropbox, &mut arena);
    assert!(!arena.is_live(p), "an unprotected retired pointer is reclaimed");
    assert_eq!(dropbox.len(), 0);
}

#[test]
fn retire_candidate_of_null_is_none() {
    assert!(Holder::retire_candidate(None).is_none());
}

#[test]
fn swap_hands_out_the_displaced_pointer() {
    let mut arena: Arena<u32> = Arena::new();
    let holder = Holder::new();
    let mut dropbox = BoxedPointer::new();
    let a = arena.allocate(Some(1), None);
    let b = arena.allocate(Some(2), None);
    let mut slot = Some(a);
    let wrapper = Holder::swap(&mut slot, Some(b));
    assert_eq!(slot, Some(b));
    wrapper.expect("slot was non-null").retire(&mut dropbox);
    try_reclaim(&holder, &mut dropbox, &mut arena);
    assert!(!arena.is_live(a));
    assert!(arena.is_live(b));
}
