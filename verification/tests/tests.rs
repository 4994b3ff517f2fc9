use fastack::Stack;

#[test]
fn test_one() {
    let mut new = Stack::new();
    for i in 0..500 {
        let _ = new.insert(i);
    }
    for _ in 0..500 {
        let _ = new.delete();
    }
}
