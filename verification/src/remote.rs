//! Type-erased pointers to store-resident roots, and the typed query and
//! transaction envelopes dispatched against them.
//!
//! A [`Remote`] is an identifier plus the store it points into; the type
//! of the value behind it is asserted by the caller at cast time, and a
//! mis-cast surfaces as an invalid encoding.  Mutation follows a
//! cast-and-commit discipline: [`Remote::cast_mut`] hands out an owned
//! [`CastMut`], and only an explicit [`CastMut::commit`] writes the value
//! back and moves the remote's identifier.

use vstd::prelude::*;

use core::marker::PhantomData;

use crate::CanonError;
use crate::canon::{ByteSource, Canon, Sink, Source};
use crate::id::{Id, id_of};
use crate::store::{Store, StoreSink};

verus! {

/// An identifier and the store it points into; the pointee's type is
/// erased and reasserted at cast time.
pub struct Remote<S: Store> {
    /// The identifier of the root value's encoding.
    pub id: Id,
    /// The store holding the bytes.
    pub store: S,
}

impl<S: Store> Remote<S> {
    /// Commits `from` to `store` and points a remote at it.
    pub fn new<T: Canon>(from: &T, store: S) -> (r: Remote<S>)
        requires
            from.wf(),
            from.enc().len() <= usize::MAX,
        ensures
            r.store == store,
            store.commits() ==> r.id@ == id_of(from.enc()),
    {
        let id = {
            let mut sink = StoreSink::new(&store);
            from.write(&mut sink);
            proof {
                assert(Seq::<u8>::empty() + from.enc() =~= from.enc());
            }
            sink.fin()
        };
        Remote { id, store }
    }

    /// Casts the remote to a `T`: fetches the bytes and decodes them.
    /// Whatever a committing store hands back hashes to the remote's
    /// identifier.
    pub fn cast<T: Canon>(&self) -> (r: Result<T, CanonError>)
        ensures
            r matches Ok(t) ==> t.wf() && (self.store.commits() ==> exists|rest: Seq<u8>|
                self.id@ == id_of(t.enc() + rest)),
            r matches Err(e) ==> e == CanonError::MissingValue || e == CanonError::InvalidEncoding,
    {
        match self.store.get_raw(&self.id) {
            Ok(stored) => {
                let ghost stored_bytes = stored@;
                let mut source = ByteSource::new(stored);
                match T::read(&mut source) {
                    Ok(t) => {
                        proof {
                            let rest = stored_bytes.skip(t.enc().len() as int);
                            assert(t.enc() + rest =~= stored_bytes);
                        }
                        Ok(t)
                    },
                    Err(_) => Err(CanonError::InvalidEncoding),
                }
            },
            Err(e) => Err(e),
        }
    }

    /// A remote's wire form: its identifier's bytes, raw.
    pub fn encoded_len(&self) -> (n: usize)
        ensures
            n == self.id@.len(),
    {
        crate::id::ID_WIDTH
    }

    /// Emits the remote's identifier onto the wire.
    pub fn write<Snk: Sink>(&self, sink: &mut Snk)
        requires
            old(sink).wf(),
            old(sink).sunk().len() + 8 <= usize::MAX,
        ensures
            final(sink).wf(),
            final(sink).exact() == old(sink).exact(),
            final(sink).commits() == old(sink).commits(),
            final(sink).sunk().len() == old(sink).sunk().len() + 8,
            old(sink).exact() ==> final(sink).sunk() == old(sink).sunk() + self.id@,
    {
        sink.copy_bytes(self.id.as_bytes());
    }

    /// Reads a remote back off the wire: eight identifier bytes, resolved
    /// against the store the reader supplies.
    pub fn read<Src: Source>(source: &mut Src, store: S) -> (r: Result<Remote<S>, CanonError>)
        requires
            old(source).wf(),
        ensures
            final(source).wf(),
            old(source).remaining().len() >= 8 ==> (r matches Ok(remote) && remote.id@ == old(
                source,
            ).remaining().take(8) && remote.store == store && final(source).remaining() == old(
                source,
            ).remaining().skip(8)),
            old(source).remaining().len() < 8 ==> (r matches Err(e) && e
                == CanonError::InvalidEncoding),
    {
        match source.read_bytes(8) {
            Ok(b) => {
                let id = Id::from_bytes(b.as_slice());
                Ok(Remote { id, store })
            },
            Err(_) => Err(CanonError::InvalidEncoding),
        }
    }

    /// Casts the remote to an owned, mutable `T`.  Changes become visible
    /// only through [`CastMut::commit`].
    pub fn cast_mut<T: Canon>(&self) -> (r: Result<CastMut<T>, CanonError>)
        ensures
            r matches Ok(c) ==> c.value.wf() && (self.store.commits() ==> exists|rest: Seq<u8>|
                self.id@ == id_of(c.value.enc() + rest)),
    {
        match self.cast::<T>() {
            Ok(value) => Ok(CastMut { value }),
            Err(e) => Err(e),
        }
    }
}

/// An owned copy of a remote's pointee, taken for mutation.
pub struct CastMut<T> {
    /// The decoded value; mutate it freely, then commit.
    pub value: T,
}

impl<T: Canon> CastMut<T> {
    /// Writes the (possibly changed) value back into the remote's store
    /// and moves the remote's identifier onto it.
    pub fn commit<S: Store>(&self, remote: &mut Remote<S>)
        requires
            self.value.wf(),
            self.value.enc().len() <= usize::MAX,
        ensures
            final(remote).store == old(remote).store,
            old(remote).store.commits() ==> final(remote).id@ == id_of(self.value.enc()),
    {
        let id = {
            let mut sink = StoreSink::new(&remote.store);
            self.value.write(&mut sink);
            proof {
                assert(Seq::<u8>::empty() + self.value.enc() =~= self.value.enc());
            }
            sink.fin()
        };
        remote.id = id;
    }
}

/// A typed query envelope: arguments in, an `R` expected back, under a
/// caller-chosen one-byte identifier.
pub struct Query<A, R, const ID: u8> {
    /// Arguments, a tuple of values or a single one.
    pub args: A,
    /// The expected return type.
    pub ret: PhantomData<R>,
}

impl<A, R, const ID: u8> Query<A, R, ID> {
    /// Wraps arguments as a query.
    pub fn new(args: A) -> (q: Self)
        ensures
            q.args == args,
    {
        Query { args, ret: PhantomData }
    }

    /// The query's arguments.
    pub fn args(&self) -> (r: &A)
        ensures
            r == self.args,
    {
        &self.args
    }
}

/// A typed transaction envelope: arguments in, an `R` expected back,
/// under a caller-chosen identifier.
pub struct Transaction<A, R, const ID: u8> {
    /// Arguments, a tuple of values or a single one.
    pub args: A,
    /// The expected return type.
    pub ret: PhantomData<R>,
}

impl<A, R, const ID: u8> Transaction<A, R, ID> {
    /// Wraps arguments as a transaction.
    pub fn new(args: A) -> (t: Self)
        ensures
            t.args == args,
    {
        Transaction { args, ret: PhantomData }
    }

    /// The transaction's arguments.
    pub fn args(&self) -> (r: &A)
        ensures
            r == self.args,
    {
        &self.args
    }

    /// Consumes the transaction and returns its arguments.
    pub fn into_args(self) -> (r: A)
        ensures
            r == self.args,
    {
        self.args
    }
}

/// Support for applying transactions to a state.
pub trait Apply<A, R, const ID: u8>: Sized {
    /// Applies a transaction to `self`.
    fn apply(&mut self, transaction: Transaction<A, R, ID>) -> Result<R, CanonError>;
}

/// Support for executing queries over a state.
pub trait Execute<A, R, const ID: u8>: Sized {
    /// Executes a query over `self`.
    fn execute(&self, query: Query<A, R, ID>) -> Result<R, CanonError>;
}

} // verus!
