//! The codec contract and the byte-stream protocol it writes through.
//!
//! A [`Canon`] type has a specification-level byte image, [`Canon::enc`].
//! Writing emits exactly that image; reading consumes exactly the image of
//! the value it returns, and is *complete*: whenever the input starts with
//! the image of some well-formed value, reading returns that value.  The
//! round trip, the length law and the unambiguity of the encoding are all
//! corollaries of these two contracts.
//!
//! Bytes flow out through a [`Sink`] and back in through a [`Source`].
//! A sink either records bytes exactly ([`VecSink`], [`crate::store::StoreSink`])
//! or merely counts them ([`DrySink`]); sealing a sink that commits yields
//! the content identifier of everything sunk.

use vstd::prelude::*;

use crate::CanonError;
use crate::id::{Id, IdBuilder, id_of};

verus! {

/// A byte stream that values encode into.
pub trait Sink: Sized {
    /// Internal consistency of the sink.
    spec fn wf(&self) -> bool;

    /// All bytes accepted so far.
    spec fn sunk(&self) -> Seq<u8>;

    /// Whether the sink records bytes exactly (a counting sink does not).
    spec fn exact(&self) -> bool;

    /// Whether sealing the sink yields the content identifier of its bytes.
    spec fn commits(&self) -> bool;

    /// Appends `bytes` to the stream.
    fn copy_bytes(&mut self, bytes: &[u8])
        requires
            old(self).wf(),
            old(self).sunk().len() + bytes@.len() <= usize::MAX,
        ensures
            final(self).wf(),
            final(self).exact() == old(self).exact(),
            final(self).commits() == old(self).commits(),
            final(self).sunk().len() == old(self).sunk().len() + bytes@.len(),
            old(self).exact() ==> final(self).sunk() == old(self).sunk() + bytes@,
    ;

    /// A fresh sink of the same kind, for encoding a child value into its
    /// own identifier scope: bytes sunk into the child never appear here.
    fn recur(&self) -> (child: Self)
        requires
            self.wf(),
        ensures
            child.wf(),
            child.sunk() == Seq::<u8>::empty(),
            child.exact() == self.exact(),
            child.commits() == self.commits(),
    ;

    /// Seals the sink and returns the identifier of everything sunk.
    fn fin(self) -> (id: Id)
        requires
            self.wf(),
        ensures
            self.commits() ==> id@ == id_of(self.sunk()),
    ;
}

/// A byte stream that values decode from.
pub trait Source: Sized {
    /// Internal consistency of the source.
    spec fn wf(&self) -> bool;

    /// The bytes not yet consumed.
    spec fn remaining(&self) -> Seq<u8>;

    /// How many bytes are left.
    fn remaining_len(&self) -> (n: usize)
        requires
            self.wf(),
        ensures
            n == self.remaining().len(),
    ;

    /// The unconsumed bytes fit in memory.
    proof fn lemma_remaining_bounded(&self)
        requires
            self.wf(),
        ensures
            self.remaining().len() <= usize::MAX,
    ;

    /// Consumes the next `n` bytes; asking for more than is left is an
    /// invalid encoding and consumes nothing.
    fn read_bytes(&mut self, n: usize) -> (r: Result<Vec<u8>, CanonError>)
        requires
            old(self).wf(),
        ensures
            final(self).wf(),
            n <= old(self).remaining().len() ==> (r matches Ok(b)
                && b@ == old(self).remaining().take(n as int)
                && final(self).remaining() == old(self).remaining().skip(n as int)),
            n > old(self).remaining().len() ==> r == Err::<Vec<u8>, CanonError>(
                CanonError::InvalidEncoding,
            ) && final(self).remaining() == old(self).remaining(),
    ;
}

/// The codec contract: a type with an exact byte image.
pub trait Canon: Sized {
    /// Which values the codec covers; encoding is only promised for
    /// well-formed values, and reading only returns them.
    spec fn wf(&self) -> bool;

    /// The byte image of this value.
    spec fn enc(&self) -> Seq<u8>;

    /// Whether reading recovers the value itself rather than merely a
    /// value with the same byte image.  It holds for every type whose
    /// specification-level equality is decided by its contents; `Vec`
    /// payloads are only determined up to their view, so there reading
    /// promises the byte image alone.
    spec fn eq_decodable() -> bool;

    /// The exact number of bytes `write` emits and `read` consumes.
    fn encoded_len(&self) -> (n: usize)
        requires
            self.wf(),
        ensures
            n == self.enc().len(),
    ;

    /// Emits exactly the byte image of `self` into `sink`.
    fn write<Snk: Sink>(&self, sink: &mut Snk)
        requires
            self.wf(),
            old(sink).wf(),
            old(sink).sunk().len() + self.enc().len() <= usize::MAX,
        ensures
            final(sink).wf(),
            final(sink).exact() == old(sink).exact(),
            final(sink).commits() == old(sink).commits(),
            final(sink).sunk().len() == old(sink).sunk().len() + self.enc().len(),
            old(sink).exact() ==> final(sink).sunk() == old(sink).sunk() + self.enc(),
    ;

    /// Decodes one value from the front of `source`.
    ///
    /// On success the returned value is well formed and its byte image is
    /// exactly what was consumed.  Completeness: if the unconsumed bytes
    /// start with the image of any well-formed value, reading succeeds
    /// with a value of that byte image — the value itself whenever the
    /// type is [`Canon::eq_decodable`].  So decoding what `write` emitted
    /// returns the original.
    fn read<Src: Source>(source: &mut Src) -> (r: Result<Self, CanonError>)
        requires
            old(source).wf(),
        ensures
            final(source).wf(),
            r matches Ok(v) ==> v.wf() && v.enc().is_prefix_of(old(source).remaining())
                && final(source).remaining() == old(source).remaining().skip(v.enc().len() as int),
            r matches Err(e) ==> e == CanonError::InvalidEncoding,
            forall|v: Self|
                v.wf() && (#[trigger] v.enc()).is_prefix_of(old(source).remaining()) ==> (
                r matches Ok(w) && w.enc() == v.enc()),
            Self::eq_decodable() ==> (forall|v: Self|
                v.wf() && (#[trigger] v.enc()).is_prefix_of(old(source).remaining()) ==> r == Ok::<
                    Self,
                    CanonError,
                >(v)),
    ;
}

/// A sink that records bytes exactly, in memory, with no store behind it.
/// Sealing it fingerprints the bytes directly.
pub struct VecSink {
    bytes: Vec<u8>,
}

impl VecSink {
    /// A fresh, empty sink.
    pub fn new() -> (s: VecSink)
        ensures
            s.wf(),
            s.sunk() == Seq::<u8>::empty(),
            s.exact(),
            s.commits(),
    {
        VecSink { bytes: Vec::new() }
    }

    /// Hands the accumulated bytes out.
    pub fn into_bytes(self) -> (out: Vec<u8>)
        ensures
            out@ == self.sunk(),
    {
        self.bytes
    }
}

impl Sink for VecSink {
    open spec fn wf(&self) -> bool {
        true
    }

    closed spec fn sunk(&self) -> Seq<u8> {
        self.bytes@
    }

    open spec fn exact(&self) -> bool {
        true
    }

    open spec fn commits(&self) -> bool {
        true
    }

    fn copy_bytes(&mut self, bytes: &[u8]) {
        let mut i: usize = 0;
        let n = bytes.len();
        proof {
            assert(self.bytes@ + bytes@.take(0) =~= self.bytes@);
        }
        let ghost sunk0 = self.bytes@;
        while i < n
            invariant
                i <= n,
                n == bytes@.len(),
                self.bytes@ == sunk0 + bytes@.take(i as int),
            decreases n - i,
        {
            self.bytes.push(bytes[i]);
            i = i + 1;
            proof {
                assert(self.bytes@ =~= sunk0 + bytes@.take(i as int));
            }
        }
        proof {
            assert(sunk0 + bytes@.take(n as int) =~= sunk0 + bytes@);
        }
    }

    fn recur(&self) -> (child: Self) {
        VecSink { bytes: Vec::new() }
    }

    fn fin(self) -> (id: Id) {
        let mut builder = IdBuilder::new();
        builder.update(self.bytes.as_slice());
        proof {
            assert(builder.fed() =~= self.bytes@);
        }
        builder.finalize()
    }
}

/// A sink that only counts: it answers "how many bytes would this value
/// take?" without keeping them.  Sealing it yields the zero identifier.
pub struct DrySink {
    count: usize,
    shadow: Ghost<Seq<u8>>,
}

impl DrySink {
    /// A fresh sink with nothing counted.
    pub fn new() -> (s: DrySink)
        ensures
            s.wf(),
            s.sunk() == Seq::<u8>::empty(),
            !s.exact(),
            !s.commits(),
    {
        DrySink { count: 0, shadow: Ghost(Seq::empty()) }
    }

    /// How many bytes have been sunk.
    pub fn count(&self) -> (n: usize)
        requires
            self.wf(),
        ensures
            n == self.sunk().len(),
    {
        self.count
    }
}

impl Sink for DrySink {
    closed spec fn wf(&self) -> bool {
        self.count == self.shadow@.len()
    }

    closed spec fn sunk(&self) -> Seq<u8> {
        self.shadow@
    }

    open spec fn exact(&self) -> bool {
        false
    }

    open spec fn commits(&self) -> bool {
        false
    }

    fn copy_bytes(&mut self, bytes: &[u8]) {
        self.count = self.count + bytes.len();
        self.shadow = Ghost(self.shadow@ + bytes@);
    }

    fn recur(&self) -> (child: Self) {
        DrySink { count: 0, shadow: Ghost(Seq::empty()) }
    }

    fn fin(self) -> (id: Id) {
        Id::zero()
    }
}

/// A source that drains an owned byte buffer from front to back.
pub struct ByteSource {
    bytes: Vec<u8>,
    offset: usize,
}

impl ByteSource {
    /// A source positioned at the start of `bytes`.
    pub fn new(bytes: Vec<u8>) -> (s: ByteSource)
        ensures
            s.wf(),
            s.remaining() == bytes@,
    {
        let n = bytes.len();
        let s = ByteSource { bytes, offset: 0 };
        proof {
            assert(s.remaining() =~= s.bytes@);
        }
        s
    }
}

impl Source for ByteSource {
    closed spec fn wf(&self) -> bool {
        self.offset <= self.bytes@.len() && self.bytes@.len() <= usize::MAX
    }

    closed spec fn remaining(&self) -> Seq<u8> {
        self.bytes@.skip(self.offset as int)
    }

    proof fn lemma_remaining_bounded(&self) {
    }

    fn remaining_len(&self) -> (n: usize) {
        self.bytes.len() - self.offset
    }

    fn read_bytes(&mut self, n: usize) -> (r: Result<Vec<u8>, CanonError>) {
        let len = self.bytes.len();
        if n > len - self.offset {
            return Err(CanonError::InvalidEncoding);
        }
        let mut out: Vec<u8> = Vec::new();
        let mut i: usize = 0;
        let ghost rem = self.bytes@.skip(self.offset as int);
        while i < n
            invariant
                i <= n,
                self.wf(),
                len == self.bytes@.len(),
                self.offset + n <= len,
                n <= rem.len(),
                rem == self.bytes@.skip(self.offset as int),
                out@ == rem.take(i as int).take(i as int),
                out@.len() == i,
                out@ == rem.take(i as int),
            decreases n - i,
        {
            out.push(self.bytes[self.offset + i]);
            i = i + 1;
            proof {
                assert(out@ =~= rem.take(i as int));
            }
        }
        self.offset = self.offset + n;
        proof {
            assert(self.bytes@.skip(self.offset as int) =~= rem.skip(n as int));
        }
        Ok(out)
    }
}

} // verus!
