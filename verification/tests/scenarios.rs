use canon::CanonError;
use canon::canon::{ByteSource, Canon, DrySink, Sink, VecSink};
use canon::handle::Handle;
use canon::stack::Stack;
use canon::storage;
use canon::store::{MemStore, Store, VoidStore};

fn encode<T: Canon>(t: &T) -> Vec<u8> {
    let mut sink = VecSink::new();
    t.write(&mut sink);
    sink.into_bytes()
}

#[test]
fn primitive_identity() {
    let v: u64 = 328;

    let id_a = MemStore::ident(&v);
    let store = MemStore::new();
    let id_b = store.put(&v);
    assert_eq!(id_a, id_b);

    assert_eq!(encode(&v), vec![0x48, 0x01, 0x00, 0x00, 0x00, 0x00, 0x00, 0x00]);
    assert_eq!(v.encoded_len(), 8);
}

#[test]
fn stack_identity_and_order() {
    let store = MemStore::new();
    let mut stack = Stack::new();

    for i in 0u32..32 {
        stack.push(i, &store);
    }

    assert_eq!(MemStore::ident(&stack), store.put(&stack));

    for i in (0u32..32).rev() {
        assert_eq!(stack.pop(&store).unwrap(), Some(i));
    }
    assert_eq!(stack.pop(&store).unwrap(), None);
}

#[test]
fn restore_roundtrip() {
    let store = MemStore::new();
    let mut list = Stack::new();

    for i in 0u8..128 {
        list.push(i, &store);
    }

    let handle = Handle::new(&list, &store);
    let id = match handle {
        Handle::Ident { id } => id,
        Handle::Inline { .. } => panic!("a deep stack cannot inline"),
    };

    let fresh = Handle::Ident { id };
    let mut restored: Stack<u8> = fresh.resolve(&store).unwrap();

    for i in (0u8..128).rev() {
        assert_eq!(restored.pop(&store).unwrap(), Some(i));
    }
    assert_eq!(restored.pop(&store).unwrap(), None);
}

#[test]
fn inline_threshold() {
    let store = MemStore::new();

    let small = Handle::new(&7u8, &store);
    assert!(matches!(small, Handle::Inline { .. }));
    assert_eq!(encode(&small), vec![0x01, 0x07]);

    let wide: u128 = 0x0123456789abcdef_fedcba9876543210;
    assert_eq!(wide.encoded_len(), 16);
    let big = Handle::new(&wide, &store);
    assert!(matches!(big, Handle::Ident { .. }));
    let wire = encode(&big);
    assert_eq!(wire.len(), 9);
    assert_eq!(wire[0], 0x00);

    let back: u128 = big.resolve(&store).unwrap();
    assert_eq!(back, wide);
}

#[test]
fn invalid_encoding() {
    let mut source = ByteSource::new(vec![0x02, 0x07, 0x07]);
    let r: Result<Option<u8>, CanonError> = Option::<u8>::read(&mut source);
    assert_eq!(r, Err(CanonError::InvalidEncoding));

    let mut source = ByteSource::new(vec![10, 0, 0, 0, 1, 2, 3]);
    let r: Result<Vec<u8>, CanonError> = Vec::<u8>::read(&mut source);
    assert_eq!(r, Err(CanonError::InvalidEncoding));
}

#[test]
fn dry_sink_equivalence() {
    let store = MemStore::new();

    let mut dry = DrySink::new();
    let v: u64 = 0xdeadbeef;
    v.write(&mut dry);
    assert_eq!(dry.count(), v.encoded_len());

    let mut stack = Stack::new();
    for i in 0u8..40 {
        stack.push(i, &store);
    }
    let mut dry = DrySink::new();
    stack.write(&mut dry);
    assert_eq!(dry.count(), stack.encoded_len());

    let opt: Option<u32> = Some(99);
    let mut dry = DrySink::new();
    opt.write(&mut dry);
    assert_eq!(dry.count(), opt.encoded_len());
}

#[test]
fn put_idempotent() {
    let store = MemStore::new();
    let v: Vec<u32> = vec![5, 6, 7];

    let first = store.put(&v);
    let second = store.put(&v);
    assert_eq!(first, second);

    let back: Vec<u32> = store.get(&first).unwrap();
    assert_eq!(back, v);
}

#[test]
fn missing_value() {
    let store = MemStore::new();
    let nowhere = MemStore::ident(&42u64);
    let r: Result<u64, CanonError> = store.get(&nowhere);
    assert_eq!(r, Err(CanonError::MissingValue));

    let void = VoidStore::new();
    let id = void.put_raw(&vec![1, 2, 3]);
    let r = void.get_raw(&id);
    assert_eq!(r, Err(CanonError::MissingValue));
}

#[test]
fn bridge_transaction() {
    let store = MemStore::new();
    let empty: Stack<u8> = Stack::new();

    // Encoded empty stack, then the push identifier as a little-endian
    // u16, then the pushed byte.
    let mut page = encode(&empty);
    page.extend_from_slice(&storage::PUSH.to_le_bytes());
    page.push(0xb0);
    while page.len() < 64 {
        page.push(0);
    }

    storage::transact(&mut page, &store).unwrap();

    let mut one = Stack::new();
    one.push(0xb0u8, &store);
    let mut expected = encode(&one);
    expected.push(0x00);
    assert_eq!(&page[..expected.len()], &expected[..]);

    // Pop it back off.
    let mut page2 = encode(&one);
    page2.extend_from_slice(&storage::POP.to_le_bytes());
    while page2.len() < 64 {
        page2.push(0);
    }
    storage::transact(&mut page2, &store).unwrap();
    let mut expected2 = encode(&empty);
    expected2.push(0x00);
    expected2.push(0x01);
    expected2.push(0xb0);
    assert_eq!(&page2[..expected2.len()], &expected2[..]);

    // A third pop finds nothing.
    let mut page3 = encode(&empty);
    page3.extend_from_slice(&storage::POP.to_le_bytes());
    while page3.len() < 64 {
        page3.push(0);
    }
    storage::transact(&mut page3, &store).unwrap();
    let mut expected3 = encode(&empty);
    expected3.push(0x00);
    expected3.push(0x00);
    assert_eq!(&page3[..expected3.len()], &expected3[..]);
}

#[test]
fn handle_reencode_is_identical() {
    let store = MemStore::new();

    for handle in [Handle::new(&3u8, &store), Handle::new(&77u64, &store)] {
        let wire = encode(&handle);
        let mut source = ByteSource::new(wire.clone());
        let back = Handle::read(&mut source).unwrap();
        assert_eq!(encode(&back), wire);
    }
}
