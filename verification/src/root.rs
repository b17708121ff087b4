//! The root of a persisted state tree: a store that remembers which
//! identifier its root lives under, and a wrapper that loads the state
//! from it and forwards queries and transactions.

use vstd::prelude::*;

use crate::CanonError;
use crate::canon::{ByteSource, Canon, Source};
use crate::id::Id;
use crate::remote::{Apply, Execute, Query, Transaction};
use crate::store::Store;


verus! {

/// A store that can persist a distinguished root identifier.
pub trait Persistent: Store {
    /// Records `root` as the current root identifier.
    fn set_root(&mut self, root: Id);

    /// The recorded root identifier, if any.
    fn get_root(&self) -> Option<Id>;
}

/// The whole-system state loaded from a persistent store.
pub struct Root<State, S> {
    /// The loaded state.
    pub state: State,
    /// The store it came from.
    pub store: S,
}

impl<State: Canon, S: Persistent> Root<State, S> {
    /// Loads the state behind the store's root identifier, or starts from
    /// `initial` when the store has no root yet.
    pub fn new(store: S, initial: State) -> (r: Result<Root<State, S>, CanonError>)
        requires
            initial.wf(),
        ensures
            r matches Ok(root) ==> root.state.wf() && root.store == store,
    {
        let state = match store.get_root() {
            Some(id) => {
                match store.get_raw(&id) {
                    Ok(stored) => {
                        let mut source = ByteSource::new(stored);
                        match State::read(&mut source) {
                            Ok(state) => state,
                            Err(e) => {
                                return Err(e);
                            },
                        }
                    },
                    Err(e) => {
                        return Err(e);
                    },
                }
            },
            None => initial,
        };
        Ok(Root { state, store })
    }
}

/// The reference persistent store: the in-memory store plus a root
/// identifier held alongside it.
pub struct RootStore {
    /// The backing content-addressed store.
    pub store: crate::store::MemStore,
    /// The identifier of the current root, once one was set.
    pub root: Option<Id>,
}

impl RootStore {
    /// A fresh store with no root recorded.
    pub fn new() -> (s: RootStore)
        ensures
            s.commits(),
            s.root is None,
    {
        RootStore { store: crate::store::MemStore::new(), root: None }
    }
}

impl Store for RootStore {
    open spec fn commits(&self) -> bool {
        true
    }

    fn put_raw(&self, bytes: &Vec<u8>) -> (id: Id) {
        self.store.put_raw(bytes)
    }

    fn get_raw(&self, id: &Id) -> (r: Result<Vec<u8>, CanonError>) {
        self.store.get_raw(id)
    }
}

impl Persistent for RootStore {
    fn set_root(&mut self, root: Id) {
        self.root = Some(root);
    }

    fn get_root(&self) -> Option<Id> {
        self.root
    }
}

impl<A, R, State: Apply<A, R, ID>, S: Store, const ID: u8> Apply<A, R, ID> for Root<State, S> {
    fn apply(&mut self, transaction: Transaction<A, R, ID>) -> Result<R, CanonError> {
        self.state.apply(transaction)
    }
}

impl<A, R, State: Execute<A, R, ID>, S: Store, const ID: u8> Execute<A, R, ID> for Root<
    State,
    S,
> {
    fn execute(&self, query: Query<A, R, ID>) -> Result<R, CanonError> {
        self.state.execute(query)
    }
}

} // verus!
