use canon::CanonError;
use canon::canon::{ByteSource, Sink, VecSink};
use canon::counter::Counter;
use canon::remote::{Apply, Execute, Query, Remote, Transaction};
use canon::root::{Persistent, Root, RootStore};
use canon::stack::Stack;
use canon::store::MemStore;

#[test]
fn remote_cast_roundtrip() {
    let store = MemStore::new();
    let remote = Remote::new(&Counter::new(13), store);

    let back: Counter = remote.cast().unwrap();
    assert_eq!(back, Counter::new(13));

    let wrong: Result<u128, CanonError> = remote.cast();
    assert_eq!(wrong, Err(CanonError::InvalidEncoding));
}

#[test]
fn cast_mut_commit() {
    let store = MemStore::new();
    let mut remote = Remote::new(&Counter::new(13), store);
    let before = remote.id;

    let mut cast = remote.cast_mut::<Counter>().unwrap();
    cast.value.increment();
    // Nothing moved until the commit.
    let still: Counter = remote.cast().unwrap();
    assert_eq!(still.read_value(), 13);

    cast.commit(&mut remote);
    assert_ne!(remote.id, before);
    let after: Counter = remote.cast().unwrap();
    assert_eq!(after.read_value(), 14);
}

#[test]
fn query_and_transaction_envelopes() {
    let query: Query<(i32, i32), i32, 1> = Query::new((3, 4));
    assert_eq!(*query.args(), (3, 4));

    let transaction: Transaction<i32, (), 2> = Transaction::new(7);
    assert_eq!(*transaction.args(), 7);
    assert_eq!(transaction.into_args(), 7);
}

struct Tally {
    counter: Counter,
}

impl Apply<i32, i32, 2> for Tally {
    fn apply(&mut self, transaction: Transaction<i32, i32, 2>) -> Result<i32, CanonError> {
        let by = transaction.into_args();
        if self.counter.read_value().checked_add(by).is_none() {
            return Err(CanonError::InvalidEncoding);
        }
        self.counter.adjust(by);
        Ok(self.counter.read_value())
    }
}

impl Execute<(), i32, 0> for Tally {
    fn execute(&self, _query: Query<(), i32, 0>) -> Result<i32, CanonError> {
        Ok(self.counter.read_value())
    }
}

#[test]
fn root_loads_and_dispatches() {
    let mut store = RootStore::new();
    assert_eq!(store.get_root(), None);

    // An empty store starts from the supplied state.
    let root: Root<Stack<u8>, RootStore> = Root::new(RootStore::new(), Stack::new()).unwrap();
    assert!(matches!(root.state, Stack::Empty));

    // A store with a root loads the state behind it.
    let mut state: Stack<u8> = Stack::new();
    state.push(9, &store);
    let id = store.store.put(&state);
    store.set_root(id);
    assert_eq!(store.get_root(), Some(id));

    let store2 = RootStore { store: store.store.clone(), root: store.root };
    let mut root: Root<Stack<u8>, RootStore> = Root::new(store2, Stack::new()).unwrap();
    assert_eq!(root.state.pop(&store).unwrap(), Some(9));

    // Queries and transactions forward to the state.
    let mut tallied = Root { state: Tally { counter: Counter::new(5) }, store: RootStore::new() };
    assert_eq!(tallied.execute(Query::new(())).unwrap(), 5);
    assert_eq!(tallied.apply(Transaction::new(10)).unwrap(), 15);
    assert_eq!(tallied.execute(Query::new(())).unwrap(), 15);
}

#[test]
fn remote_wire_form() {
    let store = MemStore::new();
    let remote = Remote::new(&0xabcdu16, store.clone());
    assert_eq!(remote.encoded_len(), 8);

    let mut sink = VecSink::new();
    remote.write(&mut sink);
    let wire = sink.into_bytes();
    assert_eq!(wire.len(), 8);

    let mut source = ByteSource::new(wire);
    let back = Remote::read(&mut source, store).unwrap();
    assert_eq!(back.id, remote.id);
    assert_eq!(back.cast::<u16>().unwrap(), 0xabcd);
}
