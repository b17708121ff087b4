//! The counter module: a tiny stateful value driven entirely through the
//! byte-page protocol.
//!
//! A page carries the encoded counter, then a query or transaction
//! identifier, then that operation's arguments.  [`q`] and [`t`] decode
//! the page, run the operation and write the response back over the
//! front of the same page: queries answer with the return value alone,
//! transactions with the new state (and, for compare-and-swap, the
//! outcome).  The specification functions [`query_reply`] and
//! [`transaction_reply`] give the exact response bytes for every page,
//! so the dispatchers are verified against the wire format itself.

use vstd::prelude::*;

use crate::CanonError;
use crate::bytes::{from_le, lemma_le_bytes_len};
use crate::canon::{ByteSource, Canon, Sink, Source, VecSink};
use crate::codec::{lemma_concat_prefix, lemma_pow256_vals, lemma_uint_head};
use crate::store::push_all;

verus! {

/// Query identifier: read the counter's value.
pub const READ_VALUE: u8 = 0;

/// Query identifier: fold two arguments into the value with exclusive or.
pub const XOR_VALUE: u8 = 1;

/// Query identifier: parity of the value.
pub const IS_EVEN: u8 = 2;

/// Transaction identifier: add one.
pub const INCREMENT: u16 = 0;

/// Transaction identifier: subtract one.
pub const DECREMENT: u16 = 1;

/// Transaction identifier: add a signed argument.
pub const ADJUST: u16 = 2;

/// Transaction identifier: replace the value if it matches an expected one.
pub const COMPARE_AND_SWAP: u16 = 3;

/// A counter with a junk word in front of its value, so that its encoding
/// exercises more than one field.
#[derive(Clone, Copy, PartialEq, Eq, Structural, Debug)]
pub struct Counter {
    /// Filler ahead of the value in the encoded form.
    pub junk: u32,
    /// The counted value.
    pub value: i32,
}

impl Counter {
    /// A counter holding `value` behind the fixed junk word.
    pub fn new(value: i32) -> (c: Counter)
        ensures
            c.value == value,
            c.junk == 0xffffffffu32,
    {
        Counter { value, junk: 0xffffffff }
    }

    /// The current value.
    pub fn read_value(&self) -> (r: i32)
        ensures
            r == self.value,
    {
        self.value
    }

    /// The value folded with both arguments by exclusive or.
    pub fn xor_values(&self, a: i32, b: i32) -> (r: i32)
        ensures
            r == self.value ^ a ^ b,
    {
        self.value ^ a ^ b
    }

    /// Whether the value is even.
    pub fn is_even(&self) -> (r: bool)
        ensures
            r == (self.value % 2 == 0),
    {
        let m = self.value % 2;
        m == 0
    }

    /// Adds one to the value.
    pub fn increment(&mut self)
        requires
            old(self).value < i32::MAX,
        ensures
            final(self).value == old(self).value + 1,
            final(self).junk == old(self).junk,
    {
        self.value = self.value + 1;
    }

    /// Subtracts one from the value.
    pub fn decrement(&mut self)
        requires
            old(self).value > i32::MIN,
        ensures
            final(self).value == old(self).value - 1,
            final(self).junk == old(self).junk,
    {
        self.value = self.value - 1;
    }

    /// Adds `by` to the value.
    pub fn adjust(&mut self, by: i32)
        requires
            i32::MIN <= old(self).value + by <= i32::MAX,
        ensures
            final(self).value == old(self).value + by,
            final(self).junk == old(self).junk,
    {
        self.value = self.value + by;
    }

    /// Replaces the value with `new` when it currently equals `expected`;
    /// reports whether the swap happened.
    pub fn compare_and_swap(&mut self, expected: i32, new: i32) -> (r: bool)
        ensures
            old(self).value == expected ==> r && final(self).value == new,
            old(self).value != expected ==> !r && *final(self) == *old(self),
            final(self).junk == old(self).junk,
    {
        if self.value == expected {
            self.value = new;
            true
        } else {
            false
        }
    }
}

impl Canon for Counter {
    open spec fn wf(&self) -> bool {
        true
    }

    open spec fn eq_decodable() -> bool {
        true
    }

    open spec fn enc(&self) -> Seq<u8> {
        self.junk.enc() + self.value.enc()
    }

    fn encoded_len(&self) -> (n: usize) {
        proof {
            lemma_le_bytes_len(self.junk as nat, 4);
            lemma_le_bytes_len((self.value as u32) as nat, 4);
        }
        self.junk.encoded_len() + self.value.encoded_len()
    }

    fn write<Snk: Sink>(&self, sink: &mut Snk) {
        let ghost s0 = sink.sunk();
        self.junk.write(sink);
        self.value.write(sink);
        proof {
            if sink.exact() {
                assert((s0 + self.junk.enc()) + self.value.enc() =~= s0 + self.enc());
            }
        }
    }

    fn read<Src: Source>(source: &mut Src) -> (r: Result<Self, CanonError>) {
        let ghost rem0 = source.remaining();
        let junk = match u32::read(source) {
            Ok(j) => j,
            Err(_) => {
                proof {
                    assert forall|x: Counter| !(#[trigger] x.enc()).is_prefix_of(rem0) by {
                        lemma_concat_prefix(x.junk.enc(), x.value.enc(), rem0);
                    }
                }
                return Err(CanonError::InvalidEncoding);
            },
        };
        let ghost rem1 = source.remaining();
        let value = match i32::read(source) {
            Ok(v) => v,
            Err(_) => {
                proof {
                    assert forall|x: Counter| !(#[trigger] x.enc()).is_prefix_of(rem0) by {
                        lemma_concat_prefix(x.junk.enc(), x.value.enc(), rem0);
                        if x.enc().is_prefix_of(rem0) {
                            assert(x.junk.enc() == junk.enc());
                            assert(rem0.skip(x.junk.enc().len() as int) == rem1);
                        }
                    }
                }
                return Err(CanonError::InvalidEncoding);
            },
        };
        let out = Counter { junk, value };
        proof {
            lemma_le_bytes_len(junk as nat, 4);
            lemma_le_bytes_len((value as u32) as nat, 4);
            lemma_concat_prefix(junk.enc(), value.enc(), rem0);
            assert(rem0.skip(4).skip(4) =~= rem0.skip(8));
            assert forall|x: Counter|
                x.wf() && (#[trigger] x.enc()).is_prefix_of(rem0) implies x == out by {
                lemma_concat_prefix(x.junk.enc(), x.value.enc(), rem0);
                assert(x.junk.enc() == junk.enc());
                assert(rem0.skip(x.junk.enc().len() as int) == rem1);
            }
        }
        Ok(out)
    }
}

/// The unsigned number held little-endian in four bytes of `b` at `i`.
pub open spec fn u32_at(b: Seq<u8>, i: int) -> u32 {
    from_le(b.subrange(i, i + 4)) as u32
}

/// The signed number held little-endian in four bytes of `b` at `i`.
pub open spec fn i32_at(b: Seq<u8>, i: int) -> i32 {
    (from_le(b.subrange(i, i + 4)) as u32) as i32
}

/// The unsigned number held little-endian in two bytes of `b` at `i`.
pub open spec fn u16_at(b: Seq<u8>, i: int) -> u16 {
    from_le(b.subrange(i, i + 2)) as u16
}

/// The counter held in the first eight bytes of `b`.
pub open spec fn counter_of(b: Seq<u8>) -> Counter {
    Counter { junk: u32_at(b, 0), value: i32_at(b, 4) }
}

/// The response a query page earns: the encoded return value, or nothing
/// when the page is short or the identifier unknown.
pub open spec fn query_reply(b: Seq<u8>) -> Option<Seq<u8>> {
    if b.len() < 9 {
        None
    } else {
        let c = counter_of(b);
        let qid = b[8];
        if qid == READ_VALUE {
            Some(c.value.enc())
        } else if qid == XOR_VALUE {
            if b.len() >= 17 {
                Some((c.value ^ i32_at(b, 9) ^ i32_at(b, 13)).enc())
            } else {
                None
            }
        } else if qid == IS_EVEN {
            if c.value % 2 == 0 {
                Some(seq![1u8])
            } else {
                Some(seq![0u8])
            }
        } else {
            None
        }
    }
}

/// The response a transaction page earns: the encoded new state, plus the
/// outcome byte for compare-and-swap; nothing when the page is short, the
/// identifier unknown, or the arithmetic would leave the value's range.
pub open spec fn transaction_reply(b: Seq<u8>) -> Option<Seq<u8>> {
    if b.len() < 10 {
        None
    } else {
        let c = counter_of(b);
        let tid = u16_at(b, 8);
        if tid == INCREMENT {
            if c.value < i32::MAX {
                Some((Counter { junk: c.junk, value: (c.value + 1) as i32 }).enc())
            } else {
                None
            }
        } else if tid == DECREMENT {
            if c.value > i32::MIN {
                Some((Counter { junk: c.junk, value: (c.value - 1) as i32 }).enc())
            } else {
                None
            }
        } else if tid == ADJUST {
            if b.len() >= 14 {
                let by = i32_at(b, 10);
                if i32::MIN <= c.value + by <= i32::MAX {
                    Some((Counter { junk: c.junk, value: (c.value + by) as i32 }).enc())
                } else {
                    None
                }
            } else {
                None
            }
        } else if tid == COMPARE_AND_SWAP {
            if b.len() >= 18 {
                let expected = i32_at(b, 10);
                let new = i32_at(b, 14);
                if c.value == expected {
                    Some((Counter { junk: c.junk, value: new }).enc() + seq![1u8])
                } else {
                    Some(c.enc() + seq![0u8])
                }
            } else {
                None
            }
        } else {
            None
        }
    }
}

/// The first eight bytes of a long enough page encode exactly the counter
/// the page carries.
proof fn lemma_counter_head(b: Seq<u8>)
    requires
        b.len() >= 8,
    ensures
        counter_of(b).enc().is_prefix_of(b),
        counter_of(b).enc().len() == 8,
        counter_of(b).enc() == b.take(8),
{
    let c = counter_of(b);
    lemma_pow256_vals();
    lemma_uint_head(b, 4);
    assert(b.subrange(0, 4) =~= b.take(4));
    crate::bytes::lemma_le_bytes_of_from_le(b.subrange(0, 4));
    assert(c.junk as nat == from_le(b.subrange(0, 4)));
    assert(c.junk.enc() =~= b.take(4));
    let mid = b.subrange(4, 8);
    crate::bytes::lemma_from_le_bound(mid);
    crate::bytes::lemma_le_bytes_of_from_le(mid);
    let w = from_le(mid) as u32;
    assert(w as i32 as u32 == w) by (bit_vector);
    assert(c.value as u32 == w);
    assert(c.value.enc() =~= mid);
    assert(c.enc() =~= b.take(8));
}

/// Replaces the front of `page` with `reply`, leaving the tail in place;
/// a reply longer than the page becomes the whole page.
pub(crate) fn overwrite_prefix(page: &mut Vec<u8>, reply: Vec<u8>)
    ensures
        reply@.len() <= old(page)@.len() ==> final(page)@ == reply@ + old(page)@.skip(
            reply@.len() as int,
        ),
        reply@.len() > old(page)@.len() ==> final(page)@ == reply@,
{
    let ghost p0 = page@;
    let ghost rv = reply@;
    let mut merged = reply;
    let mut i: usize = merged.len();
    proof {
        if rv.len() <= p0.len() {
            assert(rv + p0.skip(rv.len() as int).take(0) =~= rv);
        }
    }
    while i < page.len()
        invariant
            page@ == p0,
            i == merged@.len(),
            i >= rv.len(),
            rv.len() <= p0.len() ==> i <= p0.len() && merged@ == rv + p0.skip(
                rv.len() as int,
            ).take(i - rv.len()),
            rv.len() > p0.len() ==> merged@ == rv,
        decreases page@.len() - i,
    {
        merged.push(page[i]);
        i = i + 1;
        proof {
            assert(merged@ =~= rv + p0.skip(rv.len() as int).take(i - rv.len()));
        }
    }
    proof {
        if rv.len() <= p0.len() {
            assert(merged@ =~= rv + p0.skip(rv.len() as int));
        }
    }
    *page = merged;
}

/// The first byte of a nonempty input encodes exactly itself.
pub(crate) proof fn lemma_u8_head(rem: Seq<u8>)
    requires
        rem.len() >= 1,
    ensures
        rem[0].enc().is_prefix_of(rem),
        rem[0].enc() == rem.take(1),
        rem[0].enc().len() == 1,
{
    reveal_with_fuel(crate::bytes::le_bytes, 3);
    assert(rem[0].enc() =~= rem.take(1));
}

/// The first two bytes of a long enough input encode exactly the number
/// they hold.
pub(crate) proof fn lemma_u16_head(rem: Seq<u8>)
    requires
        rem.len() >= 2,
    ensures
        u16_at(rem, 0).enc().is_prefix_of(rem),
        u16_at(rem, 0).enc() == rem.take(2),
        u16_at(rem, 0).enc().len() == 2,
{
    lemma_pow256_vals();
    let sub = rem.subrange(0, 2);
    assert(sub =~= rem.take(2));
    crate::bytes::lemma_from_le_bound(sub);
    crate::bytes::lemma_le_bytes_of_from_le(sub);
    lemma_le_bytes_len(u16_at(rem, 0) as nat, 2);
    assert(u16_at(rem, 0).enc() =~= rem.take(2));
}

/// The first four bytes of a long enough input encode exactly the signed
/// number they hold.
pub(crate) proof fn lemma_i32_head(rem: Seq<u8>)
    requires
        rem.len() >= 4,
    ensures
        i32_at(rem, 0).enc().is_prefix_of(rem),
        i32_at(rem, 0).enc() == rem.take(4),
        i32_at(rem, 0).enc().len() == 4,
{
    lemma_pow256_vals();
    let sub = rem.subrange(0, 4);
    assert(sub =~= rem.take(4));
    crate::bytes::lemma_from_le_bound(sub);
    crate::bytes::lemma_le_bytes_of_from_le(sub);
    let w = from_le(sub) as u32;
    assert(w as i32 as u32 == w) by (bit_vector);
    lemma_le_bytes_len(w as nat, 4);
    assert(i32_at(rem, 0).enc() =~= rem.take(4));
}

/// Runs one query against the counter encoded at the front of `page` and
/// writes the encoded answer back over the front of the page.  The page
/// is untouched when it does not carry a well-formed query.
pub fn query(page: &mut Vec<u8>) -> (r: Result<(), CanonError>)
    ensures
        match query_reply(old(page)@) {
            Some(out) => r == Ok::<(), CanonError>(()) && (out.len() <= old(page)@.len()
                ==> final(page)@ == out + old(page)@.skip(out.len() as int)) && (out.len() > old(
                page,
            )@.len() ==> final(page)@ == out),
            None => r == Err::<(), CanonError>(CanonError::InvalidEncoding) && final(page)@ == old(
                page,
            )@,
        },
{
    let ghost b = page@;
    let mut buf: Vec<u8> = Vec::new();
    push_all(&mut buf, page.as_slice());
    proof {
        assert(buf@ =~= b);
    }
    let mut source = ByteSource::new(buf);
    let slf = match Counter::read(&mut source) {
        Ok(c) => c,
        Err(_) => {
            proof {
                if b.len() >= 8 {
                    lemma_counter_head(b);
                }
            }
            return Err(CanonError::InvalidEncoding);
        },
    };
    proof {
        lemma_le_bytes_len(slf.junk as nat, 4);
        lemma_le_bytes_len((slf.value as u32) as nat, 4);
        assert(b.len() >= 8);
        lemma_counter_head(b);
        assert(slf == counter_of(b));
        assert(source.remaining() == b.skip(8));
    }
    let qid = match u8::read(&mut source) {
        Ok(v) => v,
        Err(_) => {
            proof {
                if b.len() >= 9 {
                    lemma_u8_head(b.skip(8));
                }
            }
            return Err(CanonError::InvalidEncoding);
        },
    };
    proof {
        lemma_le_bytes_len(qid as nat, 1);
        lemma_u8_head(b.skip(8));
        assert(b.skip(8)[0] == b[8]);
        assert(qid == b[8]);
        assert(b.skip(8).skip(1) =~= b.skip(9));
        assert(source.remaining() == b.skip(9));
    }
    if qid == READ_VALUE {
        let ret = slf.read_value();
        let mut sink = VecSink::new();
        ret.write(&mut sink);
        proof {
            assert(Seq::<u8>::empty() + ret.enc() =~= ret.enc());
        }
        let reply = sink.into_bytes();
        overwrite_prefix(page, reply);
        Ok(())
    } else if qid == XOR_VALUE {
        let a = match i32::read(&mut source) {
            Ok(v) => v,
            Err(_) => {
                proof {
                    if b.len() >= 17 {
                        lemma_i32_head(b.skip(9));
                    }
                }
                return Err(CanonError::InvalidEncoding);
            },
        };
        proof {
            lemma_le_bytes_len((a as u32) as nat, 4);
            lemma_i32_head(b.skip(9));
            assert(b.skip(9).take(4) =~= b.subrange(9, 13));
            assert(b.skip(9).subrange(0, 4) =~= b.subrange(9, 13));
            assert(a == i32_at(b, 9));
            assert(b.skip(9).skip(4) =~= b.skip(13));
            assert(source.remaining() == b.skip(13));
        }
        let a2 = match i32::read(&mut source) {
            Ok(v) => v,
            Err(_) => {
                proof {
                    if b.len() >= 17 {
                        lemma_i32_head(b.skip(13));
                    }
                }
                return Err(CanonError::InvalidEncoding);
            },
        };
        proof {
            lemma_le_bytes_len((a2 as u32) as nat, 4);
            lemma_i32_head(b.skip(13));
            assert(b.skip(13).subrange(0, 4) =~= b.subrange(13, 17));
            assert(a2 == i32_at(b, 13));
            assert(b.len() >= 17);
        }
        let ret = slf.xor_values(a, a2);
        let mut sink = VecSink::new();
        proof {
            lemma_le_bytes_len((ret as u32) as nat, 4);
        }
        ret.write(&mut sink);
        proof {
            assert(Seq::<u8>::empty() + ret.enc() =~= ret.enc());
        }
        let reply = sink.into_bytes();
        overwrite_prefix(page, reply);
        Ok(())
    } else if qid == IS_EVEN {
        let ret = slf.is_even();
        let mut sink = VecSink::new();
        ret.write(&mut sink);
        proof {
            assert(Seq::<u8>::empty() + ret.enc() =~= ret.enc());
        }
        let reply = sink.into_bytes();
        overwrite_prefix(page, reply);
        Ok(())
    } else {
        Err(CanonError::InvalidEncoding)
    }
}

/// Applies one transaction to the counter encoded at the front of `page`
/// and writes the new state (and, for compare-and-swap, the outcome) back
/// over the front of the page.  A transaction whose arithmetic would leave
/// the value's range aborts with an error and an untouched page.
pub fn transaction(page: &mut Vec<u8>) -> (r: Result<(), CanonError>)
    ensures
        match transaction_reply(old(page)@) {
            Some(out) => r == Ok::<(), CanonError>(()) && (out.len() <= old(page)@.len()
                ==> final(page)@ == out + old(page)@.skip(out.len() as int)) && (out.len() > old(
                page,
            )@.len() ==> final(page)@ == out),
            None => r == Err::<(), CanonError>(CanonError::InvalidEncoding) && final(page)@ == old(
                page,
            )@,
        },
{
    let ghost b = page@;
    let mut buf: Vec<u8> = Vec::new();
    push_all(&mut buf, page.as_slice());
    proof {
        assert(buf@ =~= b);
    }
    let mut source = ByteSource::new(buf);
    let mut slf = match Counter::read(&mut source) {
        Ok(c) => c,
        Err(_) => {
            proof {
                if b.len() >= 8 {
                    lemma_counter_head(b);
                }
            }
            return Err(CanonError::InvalidEncoding);
        },
    };
    proof {
        lemma_le_bytes_len(slf.junk as nat, 4);
        lemma_le_bytes_len((slf.value as u32) as nat, 4);
        assert(b.len() >= 8);
        lemma_counter_head(b);
        assert(slf == counter_of(b));
        assert(source.remaining() == b.skip(8));
    }
    let tid = match u16::read(&mut source) {
        Ok(v) => v,
        Err(_) => {
            proof {
                if b.len() >= 10 {
                    lemma_u16_head(b.skip(8));
                }
            }
            return Err(CanonError::InvalidEncoding);
        },
    };
    proof {
        lemma_le_bytes_len(tid as nat, 2);
        lemma_u16_head(b.skip(8));
        assert(b.skip(8).subrange(0, 2) =~= b.subrange(8, 10));
        assert(tid == u16_at(b, 8));
        assert(b.skip(8).skip(2) =~= b.skip(10));
        assert(source.remaining() == b.skip(10));
    }
    if tid == INCREMENT {
        if slf.value == i32::MAX {
            return Err(CanonError::InvalidEncoding);
        }
        slf.increment();
        let mut sink = VecSink::new();
        proof {
            lemma_le_bytes_len(slf.junk as nat, 4);
            lemma_le_bytes_len((slf.value as u32) as nat, 4);
        }
        slf.write(&mut sink);
        proof {
            assert(Seq::<u8>::empty() + slf.enc() =~= slf.enc());
        }
        let reply = sink.into_bytes();
        overwrite_prefix(page, reply);
        Ok(())
    } else if tid == DECREMENT {
        if slf.value == i32::MIN {
            return Err(CanonError::InvalidEncoding);
        }
        slf.decrement();
        let mut sink = VecSink::new();
        proof {
            lemma_le_bytes_len(slf.junk as nat, 4);
            lemma_le_bytes_len((slf.value as u32) as nat, 4);
        }
        slf.write(&mut sink);
        proof {
            assert(Seq::<u8>::empty() + slf.enc() =~= slf.enc());
        }
        let reply = sink.into_bytes();
        overwrite_prefix(page, reply);
        Ok(())
    } else if tid == ADJUST {
        let by = match i32::read(&mut source) {
            Ok(v) => v,
            Err(_) => {
                proof {
                    if b.len() >= 14 {
                        lemma_i32_head(b.skip(10));
                    }
                }
                return Err(CanonError::InvalidEncoding);
            },
        };
        proof {
            lemma_le_bytes_len((by as u32) as nat, 4);
            lemma_i32_head(b.skip(10));
            assert(b.skip(10).subrange(0, 4) =~= b.subrange(10, 14));
            assert(by == i32_at(b, 10));
            assert(b.len() >= 14);
        }
        let adjusted = match slf.value.checked_add(by) {
            Some(_) => true,
            None => false,
        };
        if !adjusted {
            return Err(CanonError::InvalidEncoding);
        }
        slf.adjust(by);
        let mut sink = VecSink::new();
        proof {
            lemma_le_bytes_len(slf.junk as nat, 4);
            lemma_le_bytes_len((slf.value as u32) as nat, 4);
        }
        slf.write(&mut sink);
        proof {
            assert(Seq::<u8>::empty() + slf.enc() =~= slf.enc());
        }
        let reply = sink.into_bytes();
        overwrite_prefix(page, reply);
        Ok(())
    } else if tid == COMPARE_AND_SWAP {
        let expected = match i32::read(&mut source) {
            Ok(v) => v,
            Err(_) => {
                proof {
                    if b.len() >= 18 {
                        lemma_i32_head(b.skip(10));
                    }
                }
                return Err(CanonError::InvalidEncoding);
            },
        };
        proof {
            lemma_le_bytes_len((expected as u32) as nat, 4);
            lemma_i32_head(b.skip(10));
            assert(b.skip(10).subrange(0, 4) =~= b.subrange(10, 14));
            assert(expected == i32_at(b, 10));
            assert(b.skip(10).skip(4) =~= b.skip(14));
            assert(source.remaining() == b.skip(14));
        }
        let new = match i32::read(&mut source) {
            Ok(v) => v,
            Err(_) => {
                proof {
                    if b.len() >= 18 {
                        lemma_i32_head(b.skip(14));
                    }
                }
                return Err(CanonError::InvalidEncoding);
            },
        };
        proof {
            lemma_le_bytes_len((new as u32) as nat, 4);
            lemma_i32_head(b.skip(14));
            assert(b.skip(14).subrange(0, 4) =~= b.subrange(14, 18));
            assert(new == i32_at(b, 14));
            assert(b.len() >= 18);
        }
        let swapped = slf.compare_and_swap(expected, new);
        let mut sink = VecSink::new();
        slf.write(&mut sink);
        swapped.write(&mut sink);
        proof {
            assert((Seq::<u8>::empty() + slf.enc()) + swapped.enc() =~= slf.enc()
                + swapped.enc());
        }
        let reply = sink.into_bytes();
        overwrite_prefix(page, reply);
        Ok(())
    } else {
        Err(CanonError::InvalidEncoding)
    }
}

/// The query entry point: like [`query`], but errors only abort, leaving
/// the page as it was.
pub fn q(page: &mut Vec<u8>)
    ensures
        match query_reply(old(page)@) {
            Some(out) => (out.len() <= old(page)@.len() ==> final(page)@ == out + old(
                page,
            )@.skip(out.len() as int)) && (out.len() > old(page)@.len() ==> final(page)@ == out),
            None => final(page)@ == old(page)@,
        },
{
    let _ = query(page);
}

/// The transaction entry point: like [`transaction`], but errors only
/// abort, leaving the page as it was.
pub fn t(page: &mut Vec<u8>)
    ensures
        match transaction_reply(old(page)@) {
            Some(out) => (out.len() <= old(page)@.len() ==> final(page)@ == out + old(
                page,
            )@.skip(out.len() as int)) && (out.len() > old(page)@.len() ==> final(page)@ == out),
            None => final(page)@ == old(page)@,
        },
{
    let _ = transaction(page);
}

} // verus!
