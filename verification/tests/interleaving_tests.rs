use fastack::{try_reclaim, Arena, BoxedPointer, Holder, Stack};

#[test]
fn concurrency_test() {
    let mut new = Stack::new();
    let _ = new.insert(5);
    let _ = new.insert(7);
    let _ = new.delete();
}

#[test]
fn test_hazard() {
    let mut arena: Arena<u32> = Arena::new();
    let mut holder = Holder::new();
    let mut dropbox = BoxedPointer::new();
    let value1 = arena.allocate(Some(1), None);
    let value2 = arena.allocate(Some(2), None);
    let mut atm_ptr = Some(value1);
    let guard = holder.acquire_and_protect(atm_ptr);
    if let Some(g) = guard {
        holder.release(g);
    }
    if let Some(wrapper) = Holder::swap(&mut atm_ptr, Some(value2)) {
        wrapper.retire(&mut dropbox);
    }
    try_reclaim(&holder, &mut dropbox, &mut arena);
    let drops = (if arena.is_live(value1) { 0 } else { 1 }) + (if arena.is_live(value2) {
        0
    } else {
        1
    });
    assert_eq!(drops, 1 as usize);
}
