use canon::handle::Handle;
use canon::stack::Stack;
use canon::store::MemStore;

#[test]
fn multiple() {
    type Int = u64;

    let n: Int = 1024;

    let store = MemStore::new();
    let mut list = Stack::new();

    for i in 0..n {
        list.push(i, &store);
    }

    for i in 0..n {
        let i = n - i - 1;
        assert_eq!(list.pop(&store).unwrap(), Some(i))
    }

    assert_eq!(list.pop(&store).unwrap(), None)
}

#[test]
fn stack_multiple_restored() {
    let store = MemStore::new();

    type Int = u8;

    let n: Int = 128;

    let mut list = Stack::new();

    for i in 0..n {
        list.push(i, &store)
    }

    let handle = Handle::new(&list, &store);

    let mut restored: Stack<Int> = handle.resolve(&store).unwrap();

    for i in 0..n {
        let i = n - i - 1;
        assert_eq!(restored.pop(&store).unwrap(), Some(i))
    }

    assert_eq!(restored.pop(&store).unwrap(), None)
}

#[test]
fn trivial() {
    type Int = u64;

    let n: Int = 1024;

    let store = MemStore::new();
    let mut list = Stack::new();

    for i in 0..n {
        list.push(i, &store);
    }

    for i in 0..n {
        let i = n - i - 1;
        assert_eq!(list.pop(&store).unwrap(), Some(i))
    }

    assert_eq!(list.pop(&store).unwrap(), None)
}

#[test]
fn multiple_restored() {
    let store = MemStore::new();

    type Int = u8;

    let n: Int = 16;

    let mut list = Stack::new();

    for i in 0..n {
        list.push(i, &store)
    }

    let id = store.put(&list);

    let mut restored: Stack<Int> = store.get(&id).unwrap();

    for i in 0..n {
        let i = n - i - 1;
        assert_eq!(restored.pop(&store).unwrap(), Some(i))
    }

    assert_eq!(restored.pop(&store).unwrap(), None)
}
