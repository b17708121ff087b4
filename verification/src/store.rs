//! Content-addressed stores: a byte string is keyed by its own
//! fingerprint, so putting equal bytes always yields equal identifiers.
//!
//! [`MemStore`] is the reference implementation: a cheaply cloneable
//! handle to a shared map guarded by a verified reader–writer lock whose
//! invariant is exactly the content-addressing law — every stored byte
//! string sits under its own fingerprint.  [`VoidStore`] accepts
//! everything and retains nothing.

use vstd::prelude::*;

use std::collections::HashMap;
use std::sync::Arc;
use vstd::rwlock::{RwLock, RwLockPredicate};

use crate::CanonError;
use crate::bytes::{lemma_le_bytes_of_from_le, pow256};
use crate::canon::{ByteSource, Canon, Sink, Source, VecSink};
use crate::codec::lemma_pow256_vals;
use crate::id::{Id, IdBuilder, fnv64, id_of};

verus! {

/// A content-addressed byte store.
///
/// `put_raw` files a byte string and answers its identifier; `get_raw`
/// looks an identifier up.  A store that [`Store::commits`] keys bytes by
/// their content fingerprint; one that does not (such as [`VoidStore`])
/// may answer with a meaningless identifier and forget the bytes.
pub trait Store: Sized {
    /// Whether this store really keys bytes by their content identifier.
    spec fn commits(&self) -> bool;

    /// Files `bytes` and returns their identifier.
    fn put_raw(&self, bytes: &Vec<u8>) -> (id: Id)
        ensures
            self.commits() ==> id@ == id_of(bytes@),
    ;

    /// Looks the bytes behind `id` up.  Whatever comes back from a
    /// committing store carries the fingerprint asked for.
    fn get_raw(&self, id: &Id) -> (r: Result<Vec<u8>, CanonError>)
        ensures
            r matches Ok(b) ==> (self.commits() ==> id@ == id_of(b@)),
            r matches Err(e) ==> e == CanonError::MissingValue,
    ;
}

/// Copies a byte slice onto the end of a vector.
pub(crate) fn push_all(dst: &mut Vec<u8>, bytes: &[u8])
    ensures
        final(dst)@ == old(dst)@ + bytes@,
{
    let n = bytes.len();
    let mut i: usize = 0;
    let ghost d0 = dst@;
    proof {
        assert(d0 + bytes@.take(0) =~= d0);
    }
    while i < n
        invariant
            i <= n,
            n == bytes@.len(),
            dst@ == d0 + bytes@.take(i as int),
        decreases n - i,
    {
        dst.push(bytes[i]);
        i = i + 1;
        proof {
            assert(dst@ =~= d0 + bytes@.take(i as int));
        }
    }
    proof {
        assert(d0 + bytes@.take(n as int) =~= d0 + bytes@);
    }
}

/// The lock invariant of the shared map: every byte string is keyed by
/// its own fingerprint.
pub struct ContentKeyed {}

impl RwLockPredicate<HashMap<u64, Vec<u8>>> for ContentKeyed {
    open spec fn inv(self, m: HashMap<u64, Vec<u8>>) -> bool {
        forall|k: u64| #[trigger] m@.contains_key(k) ==> k == fnv64(m@[k]@)
    }
}

/// The reference in-memory store: a cheaply cloneable handle to a shared
/// fingerprint-keyed map behind a verified reader–writer lock.  Clones
/// share the backing map.
#[derive(Clone)]
pub struct MemStore {
    inner: Arc<RwLock<HashMap<u64, Vec<u8>>, ContentKeyed>>,
}

impl MemStore {
    /// A fresh, empty store.
    pub fn new() -> (s: MemStore)
        ensures
            s.commits(),
    {
        let m: HashMap<u64, Vec<u8>> = HashMap::new();
        let lock = RwLock::new(m, Ghost(ContentKeyed {}));
        MemStore { inner: Arc::new(lock) }
    }

    /// The identifier that putting `t` would return, computed without
    /// touching any store: encode, then fingerprint.
    pub fn ident<T: Canon>(t: &T) -> (id: Id)
        requires
            t.wf(),
            t.enc().len() <= usize::MAX,
        ensures
            id@ == id_of(t.enc()),
    {
        let mut sink = VecSink::new();
        t.write(&mut sink);
        proof {
            assert(Seq::<u8>::empty() + t.enc() =~= t.enc());
        }
        sink.fin()
    }

    /// Encodes `t` and files its bytes; the identifier is the
    /// fingerprint of the encoding, so it equals [`MemStore::ident`].
    pub fn put<T: Canon>(&self, t: &T) -> (id: Id)
        requires
            t.wf(),
            t.enc().len() <= usize::MAX,
        ensures
            id@ == id_of(t.enc()),
    {
        let mut sink = StoreSink::new(self);
        t.write(&mut sink);
        proof {
            assert(Seq::<u8>::empty() + t.enc() =~= t.enc());
        }
        sink.fin()
    }

    /// Looks `id` up and decodes the stored bytes as a `T`.
    pub fn get<T: Canon>(&self, id: &Id) -> (r: Result<T, CanonError>)
        ensures
            r matches Ok(t) ==> t.wf() && exists|rest: Seq<u8>|
                id@ == id_of(t.enc() + rest),
            r matches Err(e) ==> e == CanonError::MissingValue || e == CanonError::InvalidEncoding,
    {
        match self.get_raw(id) {
            Ok(bytes) => {
                let ghost stored = bytes@;
                let mut source = ByteSource::new(bytes);
                match T::read(&mut source) {
                    Ok(t) => {
                        proof {
                            let rest = stored.skip(t.enc().len() as int);
                            assert(t.enc() + rest =~= stored);
                        }
                        Ok(t)
                    },
                    Err(_) => Err(CanonError::InvalidEncoding),
                }
            },
            Err(e) => Err(e),
        }
    }
}

impl Store for MemStore {
    open spec fn commits(&self) -> bool {
        true
    }

    fn put_raw(&self, bytes: &Vec<u8>) -> (id: Id) {
        let mut builder = IdBuilder::new();
        builder.update(bytes.as_slice());
        proof {
            assert(builder.fed() =~= bytes@);
        }
        let h = builder.fingerprint();
        let id = Id::from_hash(h);
        let mut owned: Vec<u8> = Vec::new();
        push_all(&mut owned, bytes.as_slice());
        proof {
            assert(owned@ =~= bytes@);
        }
        let (mut map, write_handle) = self.inner.acquire_write();
        map.insert(h, owned);
        write_handle.release_write(map);
        id
    }

    fn get_raw(&self, id: &Id) -> (r: Result<Vec<u8>, CanonError>) {
        let wide = crate::bytes::le_val(id.as_bytes());
        proof {
            crate::bytes::lemma_from_le_bound(id@);
            lemma_pow256_vals();
        }
        let h = wide as u64;
        let read_handle = self.inner.acquire_read();
        let r = match read_handle.borrow().get(&h) {
            Some(stored) => {
                let mut owned: Vec<u8> = Vec::new();
                push_all(&mut owned, stored.as_slice());
                proof {
                    assert(owned@ =~= stored@);
                    lemma_le_bytes_of_from_le(id@);
                }
                Ok(owned)
            },
            None => Err(CanonError::MissingValue),
        };
        read_handle.release_read();
        r
    }
}

/// A sink that records bytes exactly and, on sealing, commits them to
/// the store it was opened over.
pub struct StoreSink<'a, S: Store> {
    bytes: Vec<u8>,
    store: &'a S,
}

impl<'a, S: Store> StoreSink<'a, S> {
    /// A fresh sink committing into `store`.
    pub fn new(store: &'a S) -> (s: StoreSink<'a, S>)
        ensures
            s.wf(),
            s.sunk() == Seq::<u8>::empty(),
            s.exact(),
            s.commits() == store.commits(),
    {
        StoreSink { bytes: Vec::new(), store }
    }
}

impl<'a, S: Store> Sink for StoreSink<'a, S> {
    closed spec fn wf(&self) -> bool {
        true
    }

    closed spec fn sunk(&self) -> Seq<u8> {
        self.bytes@
    }

    open spec fn exact(&self) -> bool {
        true
    }

    closed spec fn commits(&self) -> bool {
        self.store.commits()
    }

    fn copy_bytes(&mut self, bytes: &[u8]) {
        push_all(&mut self.bytes, bytes);
    }

    fn recur(&self) -> (child: Self) {
        StoreSink { bytes: Vec::new(), store: self.store }
    }

    fn fin(self) -> (id: Id) {
        self.store.put_raw(&self.bytes)
    }
}

/// A store that retains nothing: every put is swallowed whole and every
/// get misses.
#[derive(Clone, Copy, Debug)]
pub struct VoidStore {}

impl VoidStore {
    /// The one value of the void store.
    pub fn new() -> (s: VoidStore)
        ensures
            !s.commits(),
    {
        VoidStore {  }
    }
}

impl Store for VoidStore {
    open spec fn commits(&self) -> bool {
        false
    }

    fn put_raw(&self, bytes: &Vec<u8>) -> (id: Id) {
        Id::zero()
    }

    fn get_raw(&self, id: &Id) -> (r: Result<Vec<u8>, CanonError>) {
        Err(CanonError::MissingValue)
    }
}

} // verus!
