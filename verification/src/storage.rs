//! The storage module: a stack of bytes as guest state, driven over the
//! byte-page bridge by push and pop transactions.
//!
//! A transaction page carries the encoded stack, a two-byte transaction
//! identifier, and the arguments.  The response written back over the
//! page's front is the encoded new stack followed by the encoded return
//! value.

use vstd::prelude::*;

use crate::CanonError;
use crate::bytes::lemma_le_bytes_len;
use crate::canon::{ByteSource, Canon, Sink, Source, VecSink};
use crate::counter::{overwrite_prefix, u16_at};
use crate::handle::Handle;
use crate::stack::Stack;
use crate::store::{Store, push_all};

verus! {

/// Transaction identifier: push one byte.
pub const PUSH: u16 = 0x00aa;

/// Transaction identifier: pop one byte.
pub const POP: u16 = 0x00ab;

/// The guest state: a stack of bytes.
pub struct Storage(pub Stack<u8>);

impl Storage {
    /// An empty storage.
    pub fn new() -> (s: Storage)
        ensures
            s.0 == Stack::<u8>::Empty,
    {
        Storage(Stack::new())
    }

    /// Pushes a value onto the stored stack.
    pub fn push<S: Store>(&mut self, value: u8, store: &S)
        requires
            old(self).0.wf(),
            old(self).0.enc().len() + 11 <= usize::MAX,
        ensures
            final(self).0.wf(),
            final(self).0 matches Stack::Node { value: v, prev } && v == value && prev.stands_for(
                old(self).0.enc(),
                store.commits(),
            ),
    {
        proof {
            lemma_le_bytes_len(value as nat, 1);
        }
        self.0.push(value, store);
    }

    /// Pops the top value from the stored stack, if any.
    pub fn pop<S: Store>(&mut self, store: &S) -> (r: Result<Option<u8>, CanonError>)
        requires
            old(self).0.wf(),
        ensures
            final(self).0.wf(),
            old(self).0 is Empty ==> r == Ok::<Option<u8>, CanonError>(None),
            old(self).0 matches Stack::Node { value, prev } ==> (r matches Ok(opt) ==> opt
                == Some(value)),
    {
        self.0.pop(store)
    }
}

/// How a response relates to the page it was written over: it replaces
/// the page's front, or the whole page when longer.
pub open spec fn page_written(now: Seq<u8>, before: Seq<u8>, reply: Seq<u8>) -> bool {
    if reply.len() <= before.len() {
        now == reply + before.skip(reply.len() as int)
    } else {
        now == reply
    }
}

/// Applies one push or pop transaction to the stack encoded at the front
/// of `page`, committing displaced state into `store`, and writes the new
/// stack and the return value back over the page.  Errors abort with the
/// page untouched.
#[verifier::rlimit(100)]
pub fn transact<S: Store>(page: &mut Vec<u8>, store: &S) -> (r: Result<(), CanonError>)
    ensures
        r matches Err(_) ==> final(page)@ == old(page)@,
        forall|st: Stack<u8>|
            st.wf() && (#[trigger] st.enc()).is_prefix_of(old(page)@) ==> {
                let tail = old(page)@.skip(st.enc().len() as int);
                &&& (tail.len() >= 3 && u16_at(tail, 0) == PUSH && st.enc().len() + 11
                    <= usize::MAX ==> r == Ok::<(), CanonError>(()) && (exists|prev: Handle|
                    #![auto]
                    prev.wf() && prev.stands_for(st.enc(), store.commits()) && page_written(
                        final(page)@,
                        old(page)@,
                        (Stack::Node { value: tail[2], prev }).enc() + seq![0u8],
                    )))
                &&& (tail.len() >= 2 && u16_at(tail, 0) == POP && st is Empty ==> r == Ok::<
                    (),
                    CanonError,
                >(()) && page_written(
                    final(page)@,
                    old(page)@,
                    Stack::<u8>::Empty.enc() + seq![0u8, 0u8],
                ))
                &&& (st matches Stack::Node { value, prev } ==> ((tail.len() >= 2 && u16_at(
                    tail,
                    0,
                ) == POP && r == Ok::<(), CanonError>(())) ==> exists|st2: Stack<u8>|
                    #![auto]
                    st2.wf() && page_written(
                        final(page)@,
                        old(page)@,
                        st2.enc() + seq![0u8, 1u8, value],
                    )))
            },
{
    let ghost b = page@;
    let mut buf: Vec<u8> = Vec::new();
    push_all(&mut buf, page.as_slice());
    proof {
        assert(buf@ =~= b);
    }
    let mut source = ByteSource::new(buf);
    let slf = match Stack::<u8>::read(&mut source) {
        Ok(s) => s,
        Err(_) => {
            return Err(CanonError::InvalidEncoding);
        },
    };
    let ghost tail = b.skip(slf.enc().len() as int);
    let tid = match u16::read(&mut source) {
        Ok(v) => v,
        Err(_) => {
            proof {
                if tail.len() >= 2 {
                    crate::counter::lemma_u16_head(tail);
                }
            }
            return Err(CanonError::InvalidEncoding);
        },
    };
    proof {
        lemma_le_bytes_len(tid as nat, 2);
        crate::counter::lemma_u16_head(tail);
        assert(tail.subrange(0, 2) =~= tail.take(2));
        assert(tid == u16_at(tail, 0));
        assert(tail.skip(2) =~= b.skip(slf.enc().len() as int + 2));
        assert(source.remaining() == tail.skip(2));
    }
    if tid == PUSH {
        let value = match u8::read(&mut source) {
            Ok(v) => v,
            Err(_) => {
                proof {
                    if tail.len() >= 3 {
                        crate::counter::lemma_u8_head(tail.skip(2));
                    }
                }
                return Err(CanonError::InvalidEncoding);
            },
        };
        proof {
            lemma_le_bytes_len(value as nat, 1);
            crate::counter::lemma_u8_head(tail.skip(2));
            assert(tail.skip(2)[0] == tail[2]);
            assert(value == tail[2]);
            assert(tail.len() >= 3);
        }
        let n = slf.encoded_len();
        if n > usize::MAX - 11 {
            return Err(CanonError::InvalidEncoding);
        }
        let mut state = slf;
        state.push(value, store);
        let mut sink = VecSink::new();
        proof {
            lemma_handle_enc_small(state->Node_prev);
            lemma_le_bytes_len(value as nat, 1);
        }
        state.write(&mut sink);
        let ok_tag: Result<(), ()> = Ok(());
        ok_tag.write(&mut sink);
        proof {
            assert(ok_tag.enc() =~= seq![0u8]);
            assert((Seq::<u8>::empty() + state.enc()) + seq![0u8] =~= state.enc() + seq![0u8]);
        }
        let reply = sink.into_bytes();
        overwrite_prefix(page, reply);
        Ok(())
    } else if tid == POP {
        let mut state = slf;
        let popped = match state.pop(store) {
            Ok(opt) => opt,
            Err(e) => {
                return Err(e);
            },
        };
        let n = state.encoded_len();
        if n > usize::MAX - 3 {
            return Err(CanonError::InvalidEncoding);
        }
        let mut sink = VecSink::new();
        state.write(&mut sink);
        let ok_tag: Result<(), ()> = Ok(());
        ok_tag.write(&mut sink);
        proof {
            match popped {
                Some(v) => lemma_le_bytes_len(v as nat, 1),
                None => (),
            }
        }
        popped.write(&mut sink);
        proof {
            assert(ok_tag.enc() =~= seq![0u8]);
            assert(((Seq::<u8>::empty() + state.enc()) + seq![0u8]) + popped.enc() =~= state.enc()
                + (seq![0u8] + popped.enc()));
            match popped {
                Some(v) => {
                    reveal_with_fuel(crate::bytes::le_bytes, 3);
                    assert(popped.enc() =~= seq![1u8, v]);
                    assert(state.enc() + (seq![0u8] + popped.enc()) =~= state.enc() + seq![
                        0u8,
                        1u8,
                        v,
                    ]);
                },
                None => {
                    assert(popped.enc() =~= seq![0u8]);
                    assert(state.enc() + (seq![0u8] + popped.enc()) =~= state.enc() + seq![
                        0u8,
                        0u8,
                    ]);
                },
            }
        }
        let reply = sink.into_bytes();
        overwrite_prefix(page, reply);
        Ok(())
    } else {
        Err(CanonError::InvalidEncoding)
    }
}

/// A well-formed handle's image is at most nine bytes.
proof fn lemma_handle_enc_small(h: Handle)
    requires
        h.wf(),
    ensures
        1 <= h.enc().len() <= 9,
{
    match h {
        Handle::Inline { buf, len } => {
            assert(h.enc().len() == 1 + buf@.take(len as int).len());
        },
        Handle::Ident { id } => {
        },
    }
}

} // verus!
