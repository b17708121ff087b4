use canon::stack::Stack;
use canon::store::MemStore;

#[test]
fn identity_u64() {
    let a: u64 = 328;

    let id_a = MemStore::ident(&a);

    let store = MemStore::new();

    let id_b = store.put(&a);

    assert!(id_a == id_b);
}

#[test]
fn identity_stack() {
    let store = MemStore::new();
    let mut stack = Stack::new();

    for i in 0u32..32 {
        stack.push(i, &store);
    }

    let id_a = MemStore::ident(&stack);

    let id_b = store.put(&stack);

    assert_eq!(id_a, id_b);
}
