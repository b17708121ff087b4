//! The hybrid child reference: a host-allocating cousin of `Box`.
//!
//! A [`Handle`] stands for a child value.  A child whose encoding fits in
//! fewer bytes than an identifier is held *inline*, bytes and all; a
//! larger child is committed to a store and held by its *identifier*.
//! On the wire a handle is one prefix byte — `0` announces an identifier,
//! `1..=7` that many inline bytes — then the corresponding payload, so
//! equal children give byte-identical handles however they were built.

use vstd::prelude::*;

use crate::CanonError;
use crate::canon::{ByteSource, Canon, Sink, Source, VecSink};
use crate::id::{ID_WIDTH, Id, id_of};
use crate::store::Store;

verus! {

/// The widest child encoding a handle holds inline.
pub const INLINE_MAX: usize = 7;

/// A child value either inlined as its encoded bytes or committed to a
/// store and named by its identifier.
pub enum Handle {
    /// The child's whole encoding, `len` bytes of it, padded with zeros.
    Inline { buf: [u8; 8], len: u8 },
    /// The fingerprint under which the child's encoding is stored.
    Ident { id: Id },
}

impl Handle {
    /// Structural soundness: an inline payload is one to seven bytes and
    /// the padding behind it is zeroed, so equal payloads mean equal
    /// handles.
    pub open spec fn wf(&self) -> bool {
        match self {
            Handle::Inline { buf, len } => 1 <= *len <= INLINE_MAX && (forall|j: int|
                *len <= j < 8 ==> buf@[j] == 0),
            Handle::Ident { .. } => true,
        }
    }

    /// The inline payload bytes.
    pub open spec fn inline_bytes(&self) -> Seq<u8>
        recommends
            self is Inline,
    {
        match self {
            Handle::Inline { buf, len } => buf@.take(*len as int),
            Handle::Ident { .. } => Seq::empty(),
        }
    }

    /// Whether `h` correctly stands for a child whose encoding is `b`,
    /// given whether the store the child went to keeps its promises.
    pub open spec fn stands_for(self, b: Seq<u8>, committed: bool) -> bool {
        if 1 <= b.len() <= INLINE_MAX {
            self is Inline && self.inline_bytes() == b
        } else {
            self is Ident && (committed ==> self->Ident_id@ == id_of(b))
        }
    }

    /// Builds the handle for `t`: inline when the encoding is short,
    /// committed to `store` and named by its identifier otherwise.
    pub fn new<T: Canon, S: Store>(t: &T, store: &S) -> (h: Handle)
        requires
            t.wf(),
            t.enc().len() <= usize::MAX,
        ensures
            h.wf(),
            h.stands_for(t.enc(), store.commits()),
    {
        let n = t.encoded_len();
        let mut sink = VecSink::new();
        t.write(&mut sink);
        proof {
            assert(Seq::<u8>::empty() + t.enc() =~= t.enc());
        }
        if 1 <= n && n <= INLINE_MAX {
            let bytes = sink.into_bytes();
            let mut padded = bytes;
            while padded.len() < 8
                invariant
                    padded@.len() >= t.enc().len(),
                    padded@.len() <= 8,
                    padded@.take(t.enc().len() as int) == t.enc(),
                    forall|j: int| t.enc().len() <= j < padded@.len() ==> padded@[j] == 0,
                decreases 8 - padded@.len(),
            {
                padded.push(0);
                proof {
                    assert(padded@.take(t.enc().len() as int) =~= t.enc());
                }
            }
            let buf = [padded[0], padded[1], padded[2], padded[3], padded[4], padded[5], padded[6], padded[7]];
            let h = Handle::Inline { buf, len: n as u8 };
            proof {
                assert(buf@ =~= padded@);
                assert(h.inline_bytes() =~= t.enc());
            }
            h
        } else {
            let bytes = sink.into_bytes();
            let id = store.put_raw(&bytes);
            Handle::Ident { id }
        }
    }

    /// Brings the child back: decodes the inline bytes, or fetches the
    /// stored bytes by identifier and decodes them.
    ///
    /// An inline handle holding the whole encoding of a well-formed value
    /// resolves to it (to one with the same byte image when the type's
    /// equality is not decodable from bytes).  Whatever an identifier
    /// handle yields from a committing store hashes back to that
    /// identifier.
    pub fn resolve<T: Canon, S: Store>(&self, store: &S) -> (r: Result<T, CanonError>)
        requires
            self.wf(),
        ensures
            r matches Ok(t) ==> t.wf(),
            r matches Err(e) ==> e == CanonError::InvalidEncoding || e == CanonError::MissingValue,
            self is Inline ==> (forall|t: T|
                t.wf() && (#[trigger] t.enc()) == self.inline_bytes() ==> (r matches Ok(w)
                    && w.enc() == t.enc()) && (T::eq_decodable() ==> r == Ok::<T, CanonError>(t))),
            self is Ident && store.commits() ==> (r matches Ok(t) ==> exists|rest: Seq<u8>|
                self->Ident_id@ == id_of(t.enc() + rest)),
    {
        match self {
            Handle::Inline { buf, len } => {
                let mut bytes: Vec<u8> = Vec::new();
                let n = *len as usize;
                let mut j: usize = 0;
                proof {
                    assert(bytes@ =~= buf@.take(0));
                }
                while j < n
                    invariant
                        j <= n,
                        n <= 8,
                        bytes@ == buf@.take(j as int),
                    decreases n - j,
                {
                    bytes.push(buf[j]);
                    j = j + 1;
                    proof {
                        assert(bytes@ =~= buf@.take(j as int));
                    }
                }
                let mut source = ByteSource::new(bytes);
                match T::read(&mut source) {
                    Ok(t) => Ok(t),
                    Err(_) => Err(CanonError::InvalidEncoding),
                }
            },
            Handle::Ident { id } => {
                match store.get_raw(id) {
                    Ok(stored) => {
                        let ghost stored_bytes = stored@;
                        let mut source = ByteSource::new(stored);
                        match T::read(&mut source) {
                            Ok(t) => {
                                proof {
                                    let rest = stored_bytes.skip(t.enc().len() as int);
                                    assert(t.enc() + rest =~= stored_bytes);
                                }
                                Ok(t)
                            },
                            Err(_) => Err(CanonError::InvalidEncoding),
                        }
                    },
                    Err(_) => Err(CanonError::MissingValue),
                }
            },
        }
    }
}

/// Canonical form: two well-formed handles standing for the same child
/// bytes, committed, are the same handle — so they serialize identically,
/// and fingerprints of whole trees depend only on content, not on how the
/// trees were built.
pub proof fn lemma_handle_canonical(h1: Handle, h2: Handle, b: Seq<u8>)
    requires
        h1.wf(),
        h2.wf(),
        h1.stands_for(b, true),
        h2.stands_for(b, true),
    ensures
        h1 == h2,
        h1.enc() == h2.enc(),
{
    if 1 <= b.len() <= INLINE_MAX {
        match (h1, h2) {
            (Handle::Inline { buf: b1, len: l1 }, Handle::Inline { buf: b2, len: l2 }) => {
                assert(b1@.take(l1 as int).len() == l1);
                assert(b2@.take(l2 as int).len() == l2);
                assert forall|j: int| 0 <= j < 8 implies b1@[j] == b2@[j] by {
                    if j < l1 {
                        assert(b1@.take(l1 as int)[j] == b1@[j]);
                        assert(b2@.take(l2 as int)[j] == b2@[j]);
                    }
                }
                assert(b1 =~= b2);
            },
            _ => {},
        }
    } else {
        match (h1, h2) {
            (Handle::Ident { id: i1 }, Handle::Ident { id: i2 }) => {
                assert(i1.bytes =~= i2.bytes);
            },
            _ => {},
        }
    }
}

impl Canon for Handle {
    open spec fn wf(&self) -> bool {
        self.wf()
    }

    open spec fn eq_decodable() -> bool {
        true
    }

    open spec fn enc(&self) -> Seq<u8> {
        match self {
            Handle::Inline { buf, len } => seq![*len] + buf@.take(*len as int),
            Handle::Ident { id } => seq![0u8] + id@,
        }
    }

    fn encoded_len(&self) -> (n: usize) {
        match self {
            Handle::Inline { buf, len } => 1 + (*len as usize),
            Handle::Ident { id } => 1 + ID_WIDTH,
        }
    }

    fn write<Snk: Sink>(&self, sink: &mut Snk) {
        match self {
            Handle::Inline { buf, len } => {
                let n = *len as usize;
                let mut bytes: Vec<u8> = vec![*len];
                let mut j: usize = 0;
                proof {
                    assert(bytes@ =~= seq![*len] + buf@.take(0));
                }
                while j < n
                    invariant
                        j <= n,
                        n <= 8,
                        bytes@ == seq![*len] + buf@.take(j as int),
                    decreases n - j,
                {
                    bytes.push(buf[j]);
                    j = j + 1;
                    proof {
                        assert(bytes@ =~= seq![*len] + buf@.take(j as int));
                    }
                }
                sink.copy_bytes(bytes.as_slice());
            },
            Handle::Ident { id } => {
                let mut bytes: Vec<u8> = vec![0u8];
                crate::store::push_all(&mut bytes, id.as_bytes());
                proof {
                    assert(seq![0u8] + id@ =~= bytes@);
                }
                sink.copy_bytes(bytes.as_slice());
            },
        }
    }

    fn read<Src: Source>(source: &mut Src) -> (r: Result<Self, CanonError>) {
        let ghost rem0 = source.remaining();
        let tag = match source.read_bytes(1) {
            Ok(b) => b,
            Err(_) => {
                proof {
                    assert forall|x: Handle| !(x.wf() && (#[trigger] x.enc()).is_prefix_of(rem0)) by {
                        if x.wf() {
                            lemma_handle_enc_shape(x, rem0);
                        }
                    }
                }
                return Err(CanonError::InvalidEncoding);
            },
        };
        proof {
            assert(rem0.take(1)[0] == rem0[0]);
        }
        let t0 = tag[0];
        if t0 == 0 {
            match source.read_bytes(ID_WIDTH) {
                Ok(idb) => {
                    let id = Id::from_bytes(idb.as_slice());
                    let out = Handle::Ident { id };
                    proof {
                        assert(out.enc() =~= rem0.take(9));
                        assert(out.enc().is_prefix_of(rem0));
                        assert(rem0.skip(1).skip(8) =~= rem0.skip(9));
                        assert forall|x: Handle|
                            x.wf() && (#[trigger] x.enc()).is_prefix_of(rem0) implies x == out by {
                            lemma_handle_enc_shape(x, rem0);
                            match x {
                                Handle::Ident { id: xid } => {
                                    assert forall|j: int| 0 <= j < 8 implies xid@[j] == id@[j] by {
                                        assert(x.enc()[j + 1] == rem0[j + 1]);
                                        assert(rem0.skip(1)[j] == rem0[j + 1]);
                                        assert(id@[j] == rem0.skip(1).take(8)[j]);
                                    }
                                    assert(xid.bytes =~= id.bytes);
                                },
                                Handle::Inline { .. } => {},
                            }
                        }
                    }
                    Ok(out)
                },
                Err(_) => {
                    proof {
                        assert forall|x: Handle|
                            !(x.wf() && (#[trigger] x.enc()).is_prefix_of(rem0)) by {
                            if x.wf() {
                                lemma_handle_enc_shape(x, rem0);
                            }
                        }
                    }
                    Err(CanonError::InvalidEncoding)
                },
            }
        } else if t0 <= 7 {
            let n = t0 as usize;
            match source.read_bytes(n) {
                Ok(payload) => {
                    let mut padded = payload;
                    while padded.len() < 8
                        invariant
                            padded@.len() >= n,
                            padded@.len() <= 8,
                            n <= 7,
                            padded@.take(n as int) == rem0.skip(1).take(n as int),
                            forall|j: int| n <= j < padded@.len() ==> padded@[j] == 0,
                        decreases 8 - padded@.len(),
                    {
                        padded.push(0);
                        proof {
                            assert(padded@.take(n as int) =~= rem0.skip(1).take(n as int));
                        }
                    }
                    let buf = [padded[0], padded[1], padded[2], padded[3], padded[4], padded[5], padded[6], padded[7]];
                    let out = Handle::Inline { buf, len: t0 };
                    proof {
                        assert(buf@ =~= padded@);
                        assert(out.enc() =~= rem0.take(1 + n as int));
                        assert(out.enc().is_prefix_of(rem0));
                        assert(rem0.skip(1).skip(n as int) =~= rem0.skip(1 + n as int));
                        assert forall|x: Handle|
                            x.wf() && (#[trigger] x.enc()).is_prefix_of(rem0) implies x == out by {
                            lemma_handle_enc_shape(x, rem0);
                            match x {
                                Handle::Inline { buf: xbuf, len: xlen } => {
                                    assert(xlen == t0);
                                    assert forall|j: int| 0 <= j < 8 implies xbuf@[j] == buf@[j] by {
                                        if j < n {
                                            assert(x.enc()[j + 1] == rem0[j + 1]);
                                            assert(rem0.skip(1)[j] == rem0[j + 1]);
                                            assert(buf@[j] == rem0.skip(1).take(n as int)[j]);
                                        }
                                    }
                                    assert(xbuf@ =~= buf@);
                                    assert(xbuf =~= buf);
                                },
                                Handle::Ident { .. } => {},
                            }
                        }
                    }
                    Ok(out)
                },
                Err(_) => {
                    proof {
                        assert forall|x: Handle|
                            !(x.wf() && (#[trigger] x.enc()).is_prefix_of(rem0)) by {
                            if x.wf() {
                                lemma_handle_enc_shape(x, rem0);
                            }
                        }
                    }
                    Err(CanonError::InvalidEncoding)
                },
            }
        } else {
            proof {
                assert forall|x: Handle| !(x.wf() && (#[trigger] x.enc()).is_prefix_of(rem0)) by {
                    if x.wf() {
                        lemma_handle_enc_shape(x, rem0);
                    }
                }
            }
            Err(CanonError::InvalidEncoding)
        }
    }
}

/// What a handle's byte image looks like from outside: its first byte is
/// the inline length or zero, and the payload follows it byte for byte.
proof fn lemma_handle_enc_shape(x: Handle, rem: Seq<u8>)
    requires
        x.wf(),
    ensures
        x.enc().len() >= 1,
        x.enc().is_prefix_of(rem) ==> rem.len() >= x.enc().len() && rem[0] == x.enc()[0],
        x is Inline ==> x.enc().len() == 1 + x->Inline_len && x.enc()[0] == x->Inline_len,
        x is Ident ==> x.enc().len() == 9 && x.enc()[0] == 0,
        x.enc().is_prefix_of(rem) ==> (forall|j: int|
            1 <= j < x.enc().len() ==> x.enc()[j] == rem[j] && #[trigger] rem.skip(1)[j - 1]
                == rem[j]),
        x is Inline ==> (forall|j: int|
            0 <= j < x->Inline_len ==> #[trigger] x.enc()[j + 1] == x->Inline_buf@[j]),
        x is Ident ==> (forall|j: int| 0 <= j < 8 ==> #[trigger] x.enc()[j + 1] == x->Ident_id@[j]),
{
    match x {
        Handle::Inline { buf, len } => {
            assert(x.enc() == seq![len] + buf@.take(len as int));
            assert(x.enc()[0] == len);
            assert forall|j: int| 0 <= j < len implies #[trigger] x.enc()[j + 1] == buf@[j] by {
                assert(x.enc()[j + 1] == buf@.take(len as int)[j]);
            }
        },
        Handle::Ident { id } => {
            assert(x.enc()[0] == 0);
            assert forall|j: int| 0 <= j < 8 implies #[trigger] x.enc()[j + 1] == id@[j] by {
                assert(x.enc()[j + 1] == id@[j]);
            }
        },
    }
    if x.enc().is_prefix_of(rem) {
        assert forall|j: int| 1 <= j < x.enc().len() implies x.enc()[j] == rem[j]
            && #[trigger] rem.skip(1)[j - 1] == rem[j] by {
            assert(x.enc()[j] == rem.take(x.enc().len() as int)[j]);
        }
        assert(x.enc()[0] == rem.take(x.enc().len() as int)[0]);
    }
}

} // verus!
