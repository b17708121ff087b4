//! A linked stack whose spine lives behind handles: each node holds one
//! value and a handle to the previous state of the stack, so a stack is
//! a flat value however deep it grows.

use vstd::prelude::*;

use crate::CanonError;
use crate::canon::{Canon, Sink, Source};
use crate::codec::lemma_tag_prefix;
use crate::handle::Handle;
use crate::store::Store;

verus! {

/// A last-in-first-out stack with a handle-indirected spine.
pub enum Stack<T> {
    /// The empty stack.
    Empty,
    /// The top value and a handle to the rest.
    Node { value: T, prev: Handle },
}

impl<T: Canon> Stack<T> {
    /// Creates a new, empty stack.
    pub fn new() -> (s: Stack<T>)
        ensures
            s == Stack::<T>::Empty,
            s.wf(),
    {
        Stack::Empty
    }

    /// Pushes a value: the current stack becomes the new node's
    /// predecessor, inlined when small and committed to `store` when not.
    pub fn push<S: Store>(&mut self, t: T, store: &S)
        requires
            old(self).wf(),
            t.wf(),
            old(self).enc().len() + t.enc().len() + 10 <= usize::MAX,
        ensures
            final(self).wf(),
            *final(self) matches Stack::Node { value, prev } && value == t && prev.stands_for(
                old(self).enc(),
                store.commits(),
            ),
    {
        let mut root: Stack<T> = Stack::Empty;
        core::mem::swap(self, &mut root);
        let prev = Handle::new(&root, store);
        *self = Stack::Node { value: t, prev };
    }

    /// Pops the top value, if any, restoring the previous stack from its
    /// handle.  An inline predecessor holding the encoding of a
    /// well-formed stack is restored exactly; popping an empty stack
    /// yields nothing and keeps the stack empty.
    pub fn pop<S: Store>(&mut self, store: &S) -> (r: Result<Option<T>, CanonError>)
        requires
            old(self).wf(),
        ensures
            final(self).wf(),
            *old(self) is Empty ==> r == Ok::<Option<T>, CanonError>(None) && *final(self)
                == Stack::<T>::Empty,
            *old(self) matches Stack::Node { value, prev } ==> {
                &&& (r matches Ok(opt) ==> opt == Some(value))
                &&& (r matches Err(_) ==> *final(self) == Stack::<T>::Empty)
                &&& (prev is Inline ==> (forall|s: Stack<T>|
                    s.wf() && (#[trigger] s.enc()) == prev.inline_bytes() ==> r == Ok::<
                        Option<T>,
                        CanonError,
                    >(Some(value)) && (T::eq_decodable() ==> *final(self) == s)))
            },
    {
        let mut root: Stack<T> = Stack::Empty;
        core::mem::swap(self, &mut root);
        match root {
            Stack::Empty => Ok(None),
            Stack::Node { value, prev } => {
                match prev.resolve::<Stack<T>, S>(store) {
                    Ok(rest) => {
                        *self = rest;
                        Ok(Some(value))
                    },
                    Err(e) => Err(e),
                }
            },
        }
    }
}

impl<T: Canon> Canon for Stack<T> {
    open spec fn wf(&self) -> bool {
        match self {
            Stack::Empty => true,
            Stack::Node { value, prev } => value.wf() && prev.wf() && 1 + value.enc().len()
                + prev.enc().len() <= usize::MAX,
        }
    }

    open spec fn eq_decodable() -> bool {
        T::eq_decodable()
    }

    open spec fn enc(&self) -> Seq<u8> {
        match self {
            Stack::Empty => seq![0u8],
            Stack::Node { value, prev } => seq![1u8] + (value.enc() + prev.enc()),
        }
    }

    fn encoded_len(&self) -> (n: usize) {
        match self {
            Stack::Empty => 1,
            Stack::Node { value, prev } => 1 + value.encoded_len() + prev.encoded_len(),
        }
    }

    fn write<Snk: Sink>(&self, sink: &mut Snk) {
        let ghost s0 = sink.sunk();
        match self {
            Stack::Empty => {
                let bytes: Vec<u8> = vec![0u8];
                proof {
                    assert(bytes@ =~= self.enc());
                }
                sink.copy_bytes(bytes.as_slice());
            },
            Stack::Node { value, prev } => {
                let bytes: Vec<u8> = vec![1u8];
                proof {
                    assert(bytes@ =~= seq![1u8]);
                }
                sink.copy_bytes(bytes.as_slice());
                value.write(sink);
                prev.write(sink);
                proof {
                    if sink.exact() {
                        assert(((s0 + seq![1u8]) + value.enc()) + prev.enc() =~= s0 + (seq![1u8]
                            + (value.enc() + prev.enc())));
                    }
                }
            },
        }
    }

    fn read<Src: Source>(source: &mut Src) -> (r: Result<Self, CanonError>) {
        let ghost rem0 = source.remaining();
        proof {
            source.lemma_remaining_bounded();
        }
        let tag = match source.read_bytes(1) {
            Ok(b) => b,
            Err(_) => {
                proof {
                    assert forall|x: Stack<T>| !(#[trigger] x.enc()).is_prefix_of(rem0) by {
                        match x {
                            Stack::Empty => {},
                            Stack::Node { value, prev } => {
                                lemma_tag_prefix(1, value.enc() + prev.enc(), rem0);
                            },
                        }
                    }
                }
                return Err(CanonError::InvalidEncoding);
            },
        };
        proof {
            assert(rem0.take(1)[0] == rem0[0]);
        }
        if tag[0] == 0 {
            proof {
                assert(Stack::<T>::Empty.enc() =~= rem0.take(1));
                assert forall|x: Stack<T>|
                    x.wf() && (#[trigger] x.enc()).is_prefix_of(rem0)
                        implies x == Stack::<T>::Empty by {
                    match x {
                        Stack::Empty => {},
                        Stack::Node { value, prev } => {
                            lemma_tag_prefix(1, value.enc() + prev.enc(), rem0);
                        },
                    }
                }
            }
            Ok(Stack::Empty)
        } else if tag[0] == 1 {
            let ghost rem1 = rem0.skip(1);
            let inner_value = T::read(source);
            let value = match inner_value {
                Ok(v) => v,
                Err(_) => {
                    proof {
                        lemma_stack_no_witness::<T>(rem0, rem1);
                    }
                    return Err(CanonError::InvalidEncoding);
                },
            };
            let ghost rem2 = source.remaining();
            let inner_prev = Handle::read(source);
            let prev = match inner_prev {
                Ok(h) => h,
                Err(_) => {
                    proof {
                        assert forall|x: Stack<T>|
                            !(x.wf() && (#[trigger] x.enc()).is_prefix_of(rem0)) by {
                            if x.wf() && x.enc().is_prefix_of(rem0) {
                                match x {
                                    Stack::Empty => {
                                        assert(x.enc()[0] == 0);
                                        assert(rem0.take(1)[0] == rem0[0]);
                                    },
                                    Stack::Node { value: xv, prev: xp } => {
                                        lemma_tag_prefix(1, xv.enc() + xp.enc(), rem0);
                                        crate::codec::lemma_concat_prefix(
                                            xv.enc(),
                                            xp.enc(),
                                            rem1,
                                        );
                                        assert(xv.enc() == value.enc());
                                        assert(rem1.skip(xv.enc().len() as int) == rem2);
                                    },
                                }
                            }
                        }
                    }
                    return Err(CanonError::InvalidEncoding);
                },
            };
            let out = Stack::Node { value, prev };
            proof {
                lemma_tag_prefix(1, value.enc() + prev.enc(), rem0);
                crate::codec::lemma_concat_prefix(value.enc(), prev.enc(), rem1);
                assert(rem1.skip(value.enc().len() as int) == rem2);
                assert(source.remaining() == rem2.skip(prev.enc().len() as int));
                assert(rem0.skip(1).skip(value.enc().len() as int).skip(prev.enc().len() as int)
                    =~= rem0.skip(out.enc().len() as int));
                assert forall|x: Stack<T>|
                    x.wf() && (#[trigger] x.enc()).is_prefix_of(rem0) implies x.enc() == out.enc()
                    && (<Stack<T> as Canon>::eq_decodable() ==> x == out) by {
                    match x {
                        Stack::Empty => {
                            assert(x.enc()[0] == 0);
                            assert(rem0.take(1)[0] == rem0[0]);
                        },
                        Stack::Node { value: xv, prev: xp } => {
                            lemma_tag_prefix(1, xv.enc() + xp.enc(), rem0);
                            crate::codec::lemma_concat_prefix(xv.enc(), xp.enc(), rem1);
                            assert(xv.enc() == value.enc());
                            assert(rem1.skip(xv.enc().len() as int) == rem2);
                            assert(xp == prev);
                            assert(x.enc() =~= out.enc());
                        },
                    }
                }
            }
            Ok(out)
        } else {
            proof {
                assert forall|x: Stack<T>| !(x.wf() && (#[trigger] x.enc()).is_prefix_of(rem0)) by {
                    if x.wf() && x.enc().is_prefix_of(rem0) {
                        match x {
                            Stack::Empty => {
                                assert(x.enc()[0] == 0);
                                assert(rem0.take(1)[0] == rem0[0]);
                            },
                            Stack::Node { value, prev } => {
                                lemma_tag_prefix(1, value.enc() + prev.enc(), rem0);
                            },
                        }
                    }
                }
            }
            Err(CanonError::InvalidEncoding)
        }
    }
}

/// When the value at the head of a node's payload cannot be decoded, no
/// well-formed stack's image heads the input.
proof fn lemma_stack_no_witness<T: Canon>(rem0: Seq<u8>, rem1: Seq<u8>)
    requires
        rem0.len() >= 1,
        rem0[0] == 1,
        rem1 == rem0.skip(1),
        forall|v: T| !(v.wf() && (#[trigger] v.enc()).is_prefix_of(rem1)),
    ensures
        forall|x: Stack<T>| !(x.wf() && (#[trigger] x.enc()).is_prefix_of(rem0)),
{
    assert forall|x: Stack<T>| !(x.wf() && (#[trigger] x.enc()).is_prefix_of(rem0)) by {
        if x.wf() && x.enc().is_prefix_of(rem0) {
            match x {
                Stack::Empty => {
                    assert(x.enc()[0] == 0);
                    assert(rem0.take(1)[0] == rem0[0]);
                },
                Stack::Node { value, prev } => {
                    lemma_tag_prefix(1, value.enc() + prev.enc(), rem0);
                    crate::codec::lemma_concat_prefix(value.enc(), prev.enc(), rem1);
                },
            }
        }
    }
}

} // verus!
