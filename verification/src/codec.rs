//! [`Canon`] codecs for the built-in value shapes: fixed-width integers
//! (little-endian), booleans (one strict byte), the zero-byte unit,
//! options and results (one tag byte then the payload) and variable
//! sequences (a four-byte length then the elements).

use vstd::prelude::*;

use crate::CanonError;
use crate::bytes::{
    from_le, le_bytes, le_val, le_vec, lemma_from_le_bound, lemma_le_bytes_injective,
    lemma_le_bytes_len, lemma_le_bytes_of_from_le, pow256,
};
use crate::canon::{Canon, Sink, Source};

verus! {

/// The powers of 256 at the widths the codec uses.
pub proof fn lemma_pow256_vals()
    ensures
        pow256(1) == 0x100,
        pow256(2) == 0x10000,
        pow256(4) == 0x100000000,
        pow256(8) == 0x10000000000000000,
        pow256(16) == 0x100000000000000000000000000000000,
{
    reveal_with_fuel(pow256, 17);
}

/// A `w`-byte head of `rem` is the image of the number it denotes.
pub(crate) proof fn lemma_uint_head(rem: Seq<u8>, w: nat)
    requires
        w <= rem.len(),
    ensures
        rem.take(w as int).len() == w,
        from_le(rem.take(w as int)) < pow256(w),
        le_bytes(from_le(rem.take(w as int)), w) == rem.take(w as int),
{
    lemma_from_le_bound(rem.take(w as int));
    lemma_le_bytes_of_from_le(rem.take(w as int));
}

/// Emits the `w`-byte little-endian image of `v`.
fn write_uint<Snk: Sink>(v: u128, w: usize, sink: &mut Snk)
    requires
        old(sink).wf(),
        old(sink).sunk().len() + w <= usize::MAX,
    ensures
        final(sink).wf(),
        final(sink).exact() == old(sink).exact(),
        final(sink).commits() == old(sink).commits(),
        final(sink).sunk().len() == old(sink).sunk().len() + w,
        old(sink).exact() ==> final(sink).sunk() == old(sink).sunk() + le_bytes(
            v as nat,
            w as nat,
        ),
{
    let bytes = le_vec(v, w);
    proof {
        lemma_le_bytes_len(v as nat, w as nat);
    }
    sink.copy_bytes(bytes.as_slice());
}

/// Consumes `w` bytes and returns the number they denote, little-endian.
fn read_uint<Src: Source>(source: &mut Src, w: usize) -> (r: Result<u128, CanonError>)
    requires
        old(source).wf(),
        w <= 16,
    ensures
        final(source).wf(),
        w <= old(source).remaining().len() ==> (r matches Ok(v) && v as nat == from_le(
            old(source).remaining().take(w as int),
        ) && (v as nat) < pow256(w as nat) && final(source).remaining() == old(
            source,
        ).remaining().skip(w as int)),
        w > old(source).remaining().len() ==> r == Err::<u128, CanonError>(
            CanonError::InvalidEncoding,
        ) && final(source).remaining() == old(source).remaining(),
{
    match source.read_bytes(w) {
        Ok(b) => {
            proof {
                lemma_from_le_bound(b@);
            }
            Ok(le_val(b.as_slice()))
        },
        Err(e) => Err(e),
    }
}

impl Canon for u8 {
    open spec fn wf(&self) -> bool {
        true
    }

    open spec fn eq_decodable() -> bool {
        true
    }

    open spec fn enc(&self) -> Seq<u8> {
        le_bytes(*self as nat, 1)
    }

    fn encoded_len(&self) -> (n: usize) {
        proof {
            lemma_le_bytes_len(*self as nat, 1);
        }
        1
    }

    fn write<Snk: Sink>(&self, sink: &mut Snk) {
        proof {
            lemma_le_bytes_len(*self as nat, 1);
        }
        write_uint(*self as u128, 1, sink);
    }

    fn read<Src: Source>(source: &mut Src) -> (r: Result<Self, CanonError>) {
        let ghost rem0 = source.remaining();
        match read_uint(source, 1) {
            Ok(v) => {
                proof {
                    lemma_uint_head(rem0, 1);
                    lemma_pow256_vals();
                }
                let out = v as u8;
                proof {
                    assert forall|x: u8|
                        x.wf() && (#[trigger] x.enc()).is_prefix_of(rem0) implies x == out by {
                        lemma_le_bytes_len(x as nat, 1);
                        lemma_le_bytes_injective(x as nat, out as nat, 1);
                    }
                }
                Ok(out)
            },
            Err(_) => {
                proof {
                    assert forall|x: u8| !(#[trigger] x.enc()).is_prefix_of(rem0) by {
                        lemma_le_bytes_len(x as nat, 1);
                    }
                }
                Err(CanonError::InvalidEncoding)
            },
        }
    }
}

impl Canon for u16 {
    open spec fn wf(&self) -> bool {
        true
    }

    open spec fn eq_decodable() -> bool {
        true
    }

    open spec fn enc(&self) -> Seq<u8> {
        le_bytes(*self as nat, 2)
    }

    fn encoded_len(&self) -> (n: usize) {
        proof {
            lemma_le_bytes_len(*self as nat, 2);
        }
        2
    }

    fn write<Snk: Sink>(&self, sink: &mut Snk) {
        proof {
            lemma_le_bytes_len(*self as nat, 2);
        }
        write_uint(*self as u128, 2, sink);
    }

    fn read<Src: Source>(source: &mut Src) -> (r: Result<Self, CanonError>) {
        let ghost rem0 = source.remaining();
        match read_uint(source, 2) {
            Ok(v) => {
                proof {
                    lemma_uint_head(rem0, 2);
                    lemma_pow256_vals();
                }
                let out = v as u16;
                proof {
                    assert forall|x: u16|
                        x.wf() && (#[trigger] x.enc()).is_prefix_of(rem0) implies x == out by {
                        lemma_le_bytes_len(x as nat, 2);
                        lemma_le_bytes_injective(x as nat, out as nat, 2);
                    }
                }
                Ok(out)
            },
            Err(_) => {
                proof {
                    assert forall|x: u16| !(#[trigger] x.enc()).is_prefix_of(rem0) by {
                        lemma_le_bytes_len(x as nat, 2);
                    }
                }
                Err(CanonError::InvalidEncoding)
            },
        }
    }
}

impl Canon for u32 {
    open spec fn wf(&self) -> bool {
        true
    }

    open spec fn eq_decodable() -> bool {
        true
    }

    open spec fn enc(&self) -> Seq<u8> {
        le_bytes(*self as nat, 4)
    }

    fn encoded_len(&self) -> (n: usize) {
        proof {
            lemma_le_bytes_len(*self as nat, 4);
        }
        4
    }

    fn write<Snk: Sink>(&self, sink: &mut Snk) {
        proof {
            lemma_le_bytes_len(*self as nat, 4);
        }
        write_uint(*self as u128, 4, sink);
    }

    fn read<Src: Source>(source: &mut Src) -> (r: Result<Self, CanonError>) {
        let ghost rem0 = source.remaining();
        match read_uint(source, 4) {
            Ok(v) => {
                proof {
                    lemma_uint_head(rem0, 4);
                    lemma_pow256_vals();
                }
                let out = v as u32;
                proof {
                    assert forall|x: u32|
                        x.wf() && (#[trigger] x.enc()).is_prefix_of(rem0) implies x == out by {
                        lemma_le_bytes_len(x as nat, 4);
                        lemma_le_bytes_injective(x as nat, out as nat, 4);
                    }
                }
                Ok(out)
            },
            Err(_) => {
                proof {
                    assert forall|x: u32| !(#[trigger] x.enc()).is_prefix_of(rem0) by {
                        lemma_le_bytes_len(x as nat, 4);
                    }
                }
                Err(CanonError::InvalidEncoding)
            },
        }
    }
}

impl Canon for u64 {
    open spec fn wf(&self) -> bool {
        true
    }

    open spec fn eq_decodable() -> bool {
        true
    }

    open spec fn enc(&self) -> Seq<u8> {
        le_bytes(*self as nat, 8)
    }

    fn encoded_len(&self) -> (n: usize) {
        proof {
            lemma_le_bytes_len(*self as nat, 8);
        }
        8
    }

    fn write<Snk: Sink>(&self, sink: &mut Snk) {
        proof {
            lemma_le_bytes_len(*self as nat, 8);
        }
        write_uint(*self as u128, 8, sink);
    }

    fn read<Src: Source>(source: &mut Src) -> (r: Result<Self, CanonError>) {
        let ghost rem0 = source.remaining();
        match read_uint(source, 8) {
            Ok(v) => {
                proof {
                    lemma_uint_head(rem0, 8);
                    lemma_pow256_vals();
                }
                let out = v as u64;
                proof {
                    assert forall|x: u64|
                        x.wf() && (#[trigger] x.enc()).is_prefix_of(rem0) implies x == out by {
                        lemma_le_bytes_len(x as nat, 8);
                        lemma_le_bytes_injective(x as nat, out as nat, 8);
                    }
                }
                Ok(out)
            },
            Err(_) => {
                proof {
                    assert forall|x: u64| !(#[trigger] x.enc()).is_prefix_of(rem0) by {
                        lemma_le_bytes_len(x as nat, 8);
                    }
                }
                Err(CanonError::InvalidEncoding)
            },
        }
    }
}

impl Canon for u128 {
    open spec fn wf(&self) -> bool {
        true
    }

    open spec fn eq_decodable() -> bool {
        true
    }

    open spec fn enc(&self) -> Seq<u8> {
        le_bytes(*self as nat, 16)
    }

    fn encoded_len(&self) -> (n: usize) {
        proof {
            lemma_le_bytes_len(*self as nat, 16);
        }
        16
    }

    fn write<Snk: Sink>(&self, sink: &mut Snk) {
        proof {
            lemma_le_bytes_len(*self as nat, 16);
        }
        write_uint(*self, 16, sink);
    }

    fn read<Src: Source>(source: &mut Src) -> (r: Result<Self, CanonError>) {
        let ghost rem0 = source.remaining();
        match read_uint(source, 16) {
            Ok(v) => {
                proof {
                    lemma_uint_head(rem0, 16);
                    lemma_pow256_vals();
                }
                let out = v;
                proof {
                    assert forall|x: u128|
                        x.wf() && (#[trigger] x.enc()).is_prefix_of(rem0) implies x == out by {
                        lemma_le_bytes_len(x as nat, 16);
                        lemma_le_bytes_injective(x as nat, out as nat, 16);
                    }
                }
                Ok(out)
            },
            Err(_) => {
                proof {
                    assert forall|x: u128| !(#[trigger] x.enc()).is_prefix_of(rem0) by {
                        lemma_le_bytes_len(x as nat, 16);
                    }
                }
                Err(CanonError::InvalidEncoding)
            },
        }
    }
}

impl Canon for i8 {
    open spec fn wf(&self) -> bool {
        true
    }

    open spec fn eq_decodable() -> bool {
        true
    }

    open spec fn enc(&self) -> Seq<u8> {
        le_bytes((*self as u8) as nat, 1)
    }

    fn encoded_len(&self) -> (n: usize) {
        proof {
            lemma_le_bytes_len((*self as u8) as nat, 1);
        }
        1
    }

    fn write<Snk: Sink>(&self, sink: &mut Snk) {
        proof {
            lemma_le_bytes_len((*self as u8) as nat, 1);
        }
        let u: u8 = #[verifier::truncate] (*self as u8);
        write_uint(u as u128, 1, sink);
    }

    fn read<Src: Source>(source: &mut Src) -> (r: Result<Self, CanonError>) {
        let ghost rem0 = source.remaining();
        match read_uint(source, 1) {
            Ok(v) => {
                proof {
                    lemma_uint_head(rem0, 1);
                    lemma_pow256_vals();
                }
                let u = v as u8;
                let out = #[verifier::truncate] (u as i8);
                proof {
                    assert(u as i8 as u8 == u) by (bit_vector);
                    assert forall|x: i8|
                        x.wf() && (#[trigger] x.enc()).is_prefix_of(rem0) implies x == out by {
                        assert(x as u8 as i8 == x) by (bit_vector);
                        lemma_le_bytes_len((x as u8) as nat, 1);
                        lemma_le_bytes_injective((x as u8) as nat, u as nat, 1);
                    }
                }
                Ok(out)
            },
            Err(_) => {
                proof {
                    assert forall|x: i8| !(#[trigger] x.enc()).is_prefix_of(rem0) by {
                        lemma_le_bytes_len((x as u8) as nat, 1);
                    }
                }
                Err(CanonError::InvalidEncoding)
            },
        }
    }
}

impl Canon for i16 {
    open spec fn wf(&self) -> bool {
        true
    }

    open spec fn eq_decodable() -> bool {
        true
    }

    open spec fn enc(&self) -> Seq<u8> {
        le_bytes((*self as u16) as nat, 2)
    }

    fn encoded_len(&self) -> (n: usize) {
        proof {
            lemma_le_bytes_len((*self as u16) as nat, 2);
        }
        2
    }

    fn write<Snk: Sink>(&self, sink: &mut Snk) {
        proof {
            lemma_le_bytes_len((*self as u16) as nat, 2);
        }
        let u: u16 = #[verifier::truncate] (*self as u16);
        write_uint(u as u128, 2, sink);
    }

    fn read<Src: Source>(source: &mut Src) -> (r: Result<Self, CanonError>) {
        let ghost rem0 = source.remaining();
        match read_uint(source, 2) {
            Ok(v) => {
                proof {
                    lemma_uint_head(rem0, 2);
                    lemma_pow256_vals();
                }
                let u = v as u16;
                let out = #[verifier::truncate] (u as i16);
                proof {
                    assert(u as i16 as u16 == u) by (bit_vector);
                    assert forall|x: i16|
                        x.wf() && (#[trigger] x.enc()).is_prefix_of(rem0) implies x == out by {
                        assert(x as u16 as i16 == x) by (bit_vector);
                        lemma_le_bytes_len((x as u16) as nat, 2);
                        lemma_le_bytes_injective((x as u16) as nat, u as nat, 2);
                    }
                }
                Ok(out)
            },
            Err(_) => {
                proof {
                    assert forall|x: i16| !(#[trigger] x.enc()).is_prefix_of(rem0) by {
                        lemma_le_bytes_len((x as u16) as nat, 2);
                    }
                }
                Err(CanonError::InvalidEncoding)
            },
        }
    }
}

impl Canon for i32 {
    open spec fn wf(&self) -> bool {
        true
    }

    open spec fn eq_decodable() -> bool {
        true
    }

    open spec fn enc(&self) -> Seq<u8> {
        le_bytes((*self as u32) as nat, 4)
    }

    fn encoded_len(&self) -> (n: usize) {
        proof {
            lemma_le_bytes_len((*self as u32) as nat, 4);
        }
        4
    }

    fn write<Snk: Sink>(&self, sink: &mut Snk) {
        proof {
            lemma_le_bytes_len((*self as u32) as nat, 4);
        }
        let u: u32 = #[verifier::truncate] (*self as u32);
        write_uint(u as u128, 4, sink);
    }

    fn read<Src: Source>(source: &mut Src) -> (r: Result<Self, CanonError>) {
        let ghost rem0 = source.remaining();
        match read_uint(source, 4) {
            Ok(v) => {
                proof {
                    lemma_uint_head(rem0, 4);
                    lemma_pow256_vals();
                }
                let u = v as u32;
                let out = #[verifier::truncate] (u as i32);
                proof {
                    assert(u as i32 as u32 == u) by (bit_vector);
                    assert forall|x: i32|
                        x.wf() && (#[trigger] x.enc()).is_prefix_of(rem0) implies x == out by {
                        assert(x as u32 as i32 == x) by (bit_vector);
                        lemma_le_bytes_len((x as u32) as nat, 4);
                        lemma_le_bytes_injective((x as u32) as nat, u as nat, 4);
                    }
                }
                Ok(out)
            },
            Err(_) => {
                proof {
                    assert forall|x: i32| !(#[trigger] x.enc()).is_prefix_of(rem0) by {
                        lemma_le_bytes_len((x as u32) as nat, 4);
                    }
                }
                Err(CanonError::InvalidEncoding)
            },
        }
    }
}

impl Canon for i64 {
    open spec fn wf(&self) -> bool {
        true
    }

    open spec fn eq_decodable() -> bool {
        true
    }

    open spec fn enc(&self) -> Seq<u8> {
        le_bytes((*self as u64) as nat, 8)
    }

    fn encoded_len(&self) -> (n: usize) {
        proof {
            lemma_le_bytes_len((*self as u64) as nat, 8);
        }
        8
    }

    fn write<Snk: Sink>(&self, sink: &mut Snk) {
        proof {
            lemma_le_bytes_len((*self as u64) as nat, 8);
        }
        let u: u64 = #[verifier::truncate] (*self as u64);
        write_uint(u as u128, 8, sink);
    }

    fn read<Src: Source>(source: &mut Src) -> (r: Result<Self, CanonError>) {
        let ghost rem0 = source.remaining();
        match read_uint(source, 8) {
            Ok(v) => {
                proof {
                    lemma_uint_head(rem0, 8);
                    lemma_pow256_vals();
                }
                let u = v as u64;
                let out = #[verifier::truncate] (u as i64);
                proof {
                    assert(u as i64 as u64 == u) by (bit_vector);
                    assert forall|x: i64|
                        x.wf() && (#[trigger] x.enc()).is_prefix_of(rem0) implies x == out by {
                        assert(x as u64 as i64 == x) by (bit_vector);
                        lemma_le_bytes_len((x as u64) as nat, 8);
                        lemma_le_bytes_injective((x as u64) as nat, u as nat, 8);
                    }
                }
                Ok(out)
            },
            Err(_) => {
                proof {
                    assert forall|x: i64| !(#[trigger] x.enc()).is_prefix_of(rem0) by {
                        lemma_le_bytes_len((x as u64) as nat, 8);
                    }
                }
                Err(CanonError::InvalidEncoding)
            },
        }
    }
}

impl Canon for i128 {
    open spec fn wf(&self) -> bool {
        true
    }

    open spec fn eq_decodable() -> bool {
        true
    }

    open spec fn enc(&self) -> Seq<u8> {
        le_bytes((*self as u128) as nat, 16)
    }

    fn encoded_len(&self) -> (n: usize) {
        proof {
            lemma_le_bytes_len((*self as u128) as nat, 16);
        }
        16
    }

    fn write<Snk: Sink>(&self, sink: &mut Snk) {
        proof {
            lemma_le_bytes_len((*self as u128) as nat, 16);
        }
        let u: u128 = #[verifier::truncate] (*self as u128);
        write_uint(u as u128, 16, sink);
    }

    fn read<Src: Source>(source: &mut Src) -> (r: Result<Self, CanonError>) {
        let ghost rem0 = source.remaining();
        match read_uint(source, 16) {
            Ok(v) => {
                proof {
                    lemma_uint_head(rem0, 16);
                    lemma_pow256_vals();
                }
                let u = v as u128;
                let out = #[verifier::truncate] (u as i128);
                proof {
                    assert(u as i128 as u128 == u) by (bit_vector);
                    assert forall|x: i128|
                        x.wf() && (#[trigger] x.enc()).is_prefix_of(rem0) implies x == out by {
                        assert(x as u128 as i128 == x) by (bit_vector);
                        lemma_le_bytes_len((x as u128) as nat, 16);
                        lemma_le_bytes_injective((x as u128) as nat, u as nat, 16);
                    }
                }
                Ok(out)
            },
            Err(_) => {
                proof {
                    assert forall|x: i128| !(#[trigger] x.enc()).is_prefix_of(rem0) by {
                        lemma_le_bytes_len((x as u128) as nat, 16);
                    }
                }
                Err(CanonError::InvalidEncoding)
            },
        }
    }
}

impl Canon for bool {
    open spec fn wf(&self) -> bool {
        true
    }

    open spec fn eq_decodable() -> bool {
        true
    }

    open spec fn enc(&self) -> Seq<u8> {
        if *self {
            seq![1u8]
        } else {
            seq![0u8]
        }
    }

    fn encoded_len(&self) -> (n: usize) {
        1
    }

    fn write<Snk: Sink>(&self, sink: &mut Snk) {
        let b: u8 = if *self {
            1
        } else {
            0
        };
        let bytes: Vec<u8> = vec![b];
        proof {
            assert(bytes@ =~= self.enc());
        }
        sink.copy_bytes(bytes.as_slice());
    }

    fn read<Src: Source>(source: &mut Src) -> (r: Result<Self, CanonError>) {
        let ghost rem0 = source.remaining();
        match source.read_bytes(1) {
            Ok(b) => {
                proof {
                    assert(rem0.take(1)[0] == rem0[0]);
                }
                if b[0] == 0 {
                    proof {
                        assert(false.enc().is_prefix_of(rem0));
                        assert(rem0.skip(1) == rem0.skip(false.enc().len() as int));
                    }
                    Ok(false)
                } else if b[0] == 1 {
                    proof {
                        assert(true.enc().is_prefix_of(rem0));
                    }
                    Ok(true)
                } else {
                    proof {
                        assert forall|x: bool| !(#[trigger] x.enc()).is_prefix_of(rem0) by {
                            assert(x.enc()[0] != rem0[0]);
                        }
                    }
                    Err(CanonError::InvalidEncoding)
                }
            },
            Err(_) => {
                proof {
                    assert forall|x: bool| !(#[trigger] x.enc()).is_prefix_of(rem0) by {}
                }
                Err(CanonError::InvalidEncoding)
            },
        }
    }
}

/// A one-byte tag followed by a payload is a prefix of `rem` exactly when
/// the tag is the first byte and the payload is a prefix of the rest.
pub proof fn lemma_tag_prefix(t: u8, p: Seq<u8>, rem: Seq<u8>)
    ensures
        (seq![t] + p).is_prefix_of(rem) <==> (rem.len() >= 1 && rem[0] == t && p.is_prefix_of(
            rem.skip(1),
        )),
{
    if rem.len() >= 1 && rem[0] == t && p.is_prefix_of(rem.skip(1)) {
        assert(seq![t] + p =~= rem.take(1 + p.len() as int));
    }
    if (seq![t] + p).is_prefix_of(rem) {
        assert((seq![t] + p)[0] == t);
        assert(rem.take(1 + p.len() as int)[0] == rem[0]);
        assert forall|i: int| 0 <= i < p.len() implies p[i] == rem.skip(1).take(
            p.len() as int,
        )[i] by {
            assert((seq![t] + p)[i + 1] == p[i]);
            assert(rem.take(1 + p.len() as int)[i + 1] == rem[i + 1]);
        }
        assert(p =~= rem.skip(1).take(p.len() as int));
    }
}

/// Emits a single tag byte.
fn write_tag<Snk: Sink>(tag: u8, sink: &mut Snk)
    requires
        old(sink).wf(),
        old(sink).sunk().len() + 1 <= usize::MAX,
    ensures
        final(sink).wf(),
        final(sink).exact() == old(sink).exact(),
        final(sink).commits() == old(sink).commits(),
        final(sink).sunk().len() == old(sink).sunk().len() + 1,
        old(sink).exact() ==> final(sink).sunk() == old(sink).sunk() + seq![tag],
{
    let bytes: Vec<u8> = vec![tag];
    proof {
        assert(bytes@ =~= seq![tag]);
    }
    sink.copy_bytes(bytes.as_slice());
}

impl<T: Canon> Canon for Option<T> {
    open spec fn wf(&self) -> bool {
        match self {
            None => true,
            Some(t) => t.wf() && 1 + t.enc().len() <= usize::MAX,
        }
    }

    open spec fn eq_decodable() -> bool {
        T::eq_decodable()
    }

    open spec fn enc(&self) -> Seq<u8> {
        match self {
            None => seq![0u8],
            Some(t) => seq![1u8] + t.enc(),
        }
    }

    fn encoded_len(&self) -> (n: usize) {
        match self {
            None => 1,
            Some(t) => 1 + t.encoded_len(),
        }
    }

    fn write<Snk: Sink>(&self, sink: &mut Snk) {
        let ghost s0 = sink.sunk();
        match self {
            None => {
                write_tag(0, sink);
            },
            Some(t) => {
                write_tag(1, sink);
                t.write(sink);
                proof {
                    if sink.exact() {
                        assert((s0 + seq![1u8]) + t.enc() =~= s0 + (seq![1u8] + t.enc()));
                    }
                }
            },
        }
    }

    fn read<Src: Source>(source: &mut Src) -> (r: Result<Self, CanonError>) {
        let ghost rem0 = source.remaining();
        proof {
            source.lemma_remaining_bounded();
        }
        match source.read_bytes(1) {
            Err(_) => {
                proof {
                    assert forall|x: Option<T>| !(#[trigger] x.enc()).is_prefix_of(rem0) by {
                        match x {
                            None => {},
                            Some(t) => lemma_tag_prefix(1, t.enc(), rem0),
                        }
                    }
                }
                Err(CanonError::InvalidEncoding)
            },
            Ok(b) => {
                proof {
                    assert(rem0.take(1)[0] == rem0[0]);
                }
                if b[0] == 0 {
                    proof {
                        assert(Option::<T>::None.enc() =~= rem0.take(1));
                        assert forall|x: Option<T>|
                            x.wf() && (#[trigger] x.enc()).is_prefix_of(rem0)
                                implies x == Option::<T>::None by {
                            match x {
                                None => {},
                                Some(t) => lemma_tag_prefix(1, t.enc(), rem0),
                            }
                        }
                    }
                    Ok(None)
                } else if b[0] == 1 {
                    let inner = T::read(source);
                    match inner {
                        Ok(t) => {
                            let out = Some(t);
                            proof {
                                lemma_tag_prefix(1, t.enc(), rem0);
                                assert(rem0.skip(1).skip(t.enc().len() as int) =~= rem0.skip(
                                    1 + t.enc().len() as int,
                                ));
                                assert forall|x: Option<T>|
                                    x.wf() && (#[trigger] x.enc()).is_prefix_of(rem0)
                                        implies x.enc() == out.enc() by {
                                    match x {
                                        None => {
                                            assert(x.enc()[0] == 0);
                                            assert(rem0.take(1)[0] == rem0[0]);
                                        },
                                        Some(s) => {
                                            lemma_tag_prefix(1, s.enc(), rem0);
                                        },
                                    }
                                }
                                if <Option<T> as Canon>::eq_decodable() {
                                    assert forall|x: Option<T>|
                                        x.wf() && (#[trigger] x.enc()).is_prefix_of(rem0)
                                            implies x == out by {
                                        match x {
                                            None => {
                                                assert(x.enc()[0] == 0);
                                                assert(rem0.take(1)[0] == rem0[0]);
                                            },
                                            Some(s) => {
                                                lemma_tag_prefix(1, s.enc(), rem0);
                                            },
                                        }
                                    }
                                }
                            }
                            Ok(out)
                        },
                        Err(_) => {
                            proof {
                                assert forall|x: Option<T>|
                                    !(x.wf() && (#[trigger] x.enc()).is_prefix_of(rem0)) by {
                                    match x {
                                        None => {
                                            if x.enc().is_prefix_of(rem0) {
                                                assert(x.enc()[0] == 0);
                                                assert(rem0.take(1)[0] == rem0[0]);
                                            }
                                        },
                                        Some(s) => {
                                            lemma_tag_prefix(1, s.enc(), rem0);
                                        },
                                    }
                                }
                            }
                            Err(CanonError::InvalidEncoding)
                        },
                    }
                } else {
                    proof {
                        assert forall|x: Option<T>| !(#[trigger] x.enc()).is_prefix_of(rem0) by {
                            match x {
                                None => {
                                    if x.enc().is_prefix_of(rem0) {
                                        assert(x.enc()[0] == 0);
                                        assert(rem0.take(1)[0] == rem0[0]);
                                    }
                                },
                                Some(s) => {
                                    lemma_tag_prefix(1, s.enc(), rem0);
                                },
                            }
                        }
                    }
                    Err(CanonError::InvalidEncoding)
                }
            },
        }
    }
}

impl<T: Canon, E: Canon> Canon for Result<T, E> {
    open spec fn wf(&self) -> bool {
        match self {
            Ok(t) => t.wf() && 1 + t.enc().len() <= usize::MAX,
            Err(e) => e.wf() && 1 + e.enc().len() <= usize::MAX,
        }
    }

    open spec fn eq_decodable() -> bool {
        T::eq_decodable() && E::eq_decodable()
    }

    open spec fn enc(&self) -> Seq<u8> {
        match self {
            Ok(t) => seq![0u8] + t.enc(),
            Err(e) => seq![1u8] + e.enc(),
        }
    }

    fn encoded_len(&self) -> (n: usize) {
        match self {
            Ok(t) => 1 + t.encoded_len(),
            Err(e) => 1 + e.encoded_len(),
        }
    }

    fn write<Snk: Sink>(&self, sink: &mut Snk) {
        let ghost s0 = sink.sunk();
        match self {
            Ok(t) => {
                write_tag(0, sink);
                t.write(sink);
                proof {
                    if sink.exact() {
                        assert((s0 + seq![0u8]) + t.enc() =~= s0 + (seq![0u8] + t.enc()));
                    }
                }
            },
            Err(e) => {
                write_tag(1, sink);
                e.write(sink);
                proof {
                    if sink.exact() {
                        assert((s0 + seq![1u8]) + e.enc() =~= s0 + (seq![1u8] + e.enc()));
                    }
                }
            },
        }
    }

    fn read<Src: Source>(source: &mut Src) -> (r: Result<Self, CanonError>) {
        let ghost rem0 = source.remaining();
        proof {
            source.lemma_remaining_bounded();
        }
        match source.read_bytes(1) {
            Err(_) => {
                proof {
                    assert forall|x: Result<T, E>| !(#[trigger] x.enc()).is_prefix_of(rem0) by {
                        match x {
                            Ok(t) => lemma_tag_prefix(0, t.enc(), rem0),
                            Err(e) => lemma_tag_prefix(1, e.enc(), rem0),
                        }
                    }
                }
                Err(CanonError::InvalidEncoding)
            },
            Ok(b) => {
                proof {
                    assert(rem0.take(1)[0] == rem0[0]);
                }
                if b[0] == 0 {
                    let inner = T::read(source);
                    match inner {
                        Ok(t) => {
                            let out = Ok(t);
                            proof {
                                lemma_tag_prefix(0, t.enc(), rem0);
                                assert(rem0.skip(1).skip(t.enc().len() as int) =~= rem0.skip(
                                    1 + t.enc().len() as int,
                                ));
                                assert forall|x: Result<T, E>|
                                    x.wf() && (#[trigger] x.enc()).is_prefix_of(rem0)
                                        implies x.enc() == out.enc() by {
                                    match x {
                                        Ok(s) => lemma_tag_prefix(0, s.enc(), rem0),
                                        Err(e) => lemma_tag_prefix(1, e.enc(), rem0),
                                    }
                                }
                                if <Result<T, E> as Canon>::eq_decodable() {
                                    assert forall|x: Result<T, E>|
                                        x.wf() && (#[trigger] x.enc()).is_prefix_of(rem0)
                                            implies x == out by {
                                        match x {
                                            Ok(s) => lemma_tag_prefix(0, s.enc(), rem0),
                                            Err(e) => lemma_tag_prefix(1, e.enc(), rem0),
                                        }
                                    }
                                }
                            }
                            Ok(out)
                        },
                        Err(_) => {
                            proof {
                                assert forall|x: Result<T, E>|
                                    !(x.wf() && (#[trigger] x.enc()).is_prefix_of(rem0)) by {
                                    match x {
                                        Ok(s) => lemma_tag_prefix(0, s.enc(), rem0),
                                        Err(e) => lemma_tag_prefix(1, e.enc(), rem0),
                                    }
                                }
                            }
                            Err(CanonError::InvalidEncoding)
                        },
                    }
                } else if b[0] == 1 {
                    let inner = E::read(source);
                    match inner {
                        Ok(e) => {
                            let out = Err(e);
                            proof {
                                lemma_tag_prefix(1, e.enc(), rem0);
                                assert(rem0.skip(1).skip(e.enc().len() as int) =~= rem0.skip(
                                    1 + e.enc().len() as int,
                                ));
                                assert forall|x: Result<T, E>|
                                    x.wf() && (#[trigger] x.enc()).is_prefix_of(rem0)
                                        implies x.enc() == out.enc() by {
                                    match x {
                                        Ok(s) => lemma_tag_prefix(0, s.enc(), rem0),
                                        Err(e2) => lemma_tag_prefix(1, e2.enc(), rem0),
                                    }
                                }
                                if <Result<T, E> as Canon>::eq_decodable() {
                                    assert forall|x: Result<T, E>|
                                        x.wf() && (#[trigger] x.enc()).is_prefix_of(rem0)
                                            implies x == out by {
                                        match x {
                                            Ok(s) => lemma_tag_prefix(0, s.enc(), rem0),
                                            Err(e2) => lemma_tag_prefix(1, e2.enc(), rem0),
                                        }
                                    }
                                }
                            }
                            Ok(out)
                        },
                        Err(_) => {
                            proof {
                                assert forall|x: Result<T, E>|
                                    !(x.wf() && (#[trigger] x.enc()).is_prefix_of(rem0)) by {
                                    match x {
                                        Ok(s) => lemma_tag_prefix(0, s.enc(), rem0),
                                        Err(e2) => lemma_tag_prefix(1, e2.enc(), rem0),
                                    }
                                }
                            }
                            Err(CanonError::InvalidEncoding)
                        },
                    }
                } else {
                    proof {
                        assert forall|x: Result<T, E>| !(#[trigger] x.enc()).is_prefix_of(rem0) by {
                            match x {
                                Ok(s) => lemma_tag_prefix(0, s.enc(), rem0),
                                Err(e) => lemma_tag_prefix(1, e.enc(), rem0),
                            }
                        }
                    }
                    Err(CanonError::InvalidEncoding)
                }
            },
        }
    }
}

/// Concatenated byte images of a sequence of values.
pub open spec fn seq_enc<T: Canon>(s: Seq<T>) -> Seq<u8>
    decreases s.len(),
{
    if s.len() == 0 {
        Seq::empty()
    } else {
        s[0].enc() + seq_enc(s.skip(1))
    }
}

/// Every element of the sequence is well formed.
pub open spec fn seq_wf<T: Canon>(s: Seq<T>) -> bool {
    forall|i: int| 0 <= i < s.len() ==> (#[trigger] s[i]).wf()
}

/// The image of a sequence splits at any element boundary.
pub proof fn lemma_seq_enc_split<T: Canon>(s: Seq<T>, i: int)
    requires
        0 <= i <= s.len(),
    ensures
        seq_enc(s) == seq_enc(s.take(i)) + seq_enc(s.skip(i)),
    decreases i,
{
    if i == 0 {
        assert(s.take(0) =~= Seq::<T>::empty());
        assert(s.skip(0) =~= s);
        assert(seq_enc(s.take(0)) + seq_enc(s) =~= seq_enc(s));
    } else {
        lemma_seq_enc_split(s.skip(1), i - 1);
        assert(s.take(i)[0] == s[0]);
        assert(s.take(i).skip(1) =~= s.skip(1).take(i - 1));
        assert(s.skip(1).skip(i - 1) =~= s.skip(i));
        assert(seq_enc(s.take(i)) == s[0].enc() + seq_enc(s.skip(1).take(i - 1)));
        assert((s[0].enc() + seq_enc(s.skip(1).take(i - 1))) + seq_enc(s.skip(i)) =~= s[0].enc()
            + (seq_enc(s.skip(1).take(i - 1)) + seq_enc(s.skip(i))));
    }
}

/// Appending one value appends its image.
pub proof fn lemma_seq_enc_push<T: Canon>(s: Seq<T>, t: T)
    ensures
        seq_enc(s.push(t)) == seq_enc(s) + t.enc(),
{
    lemma_seq_enc_split(s.push(t), s.len() as int);
    assert(s.push(t).take(s.len() as int) =~= s);
    assert(s.push(t).skip(s.len() as int) =~= seq![t]);
    assert(seq_enc(seq![t]) == t.enc() + seq_enc(seq![t].skip(1)));
    assert(seq![t].skip(1) =~= Seq::<T>::empty());
    assert(t.enc() + Seq::<u8>::empty() =~= t.enc());
}

/// A concatenation is a prefix exactly when its first part is a prefix and
/// its second part is a prefix of what follows.
pub proof fn lemma_concat_prefix(a: Seq<u8>, b: Seq<u8>, c: Seq<u8>)
    ensures
        (a + b).is_prefix_of(c) <==> (a.is_prefix_of(c) && b.is_prefix_of(c.skip(a.len() as int))),
{
    let al = a.len() as int;
    let bl = b.len() as int;
    if a.is_prefix_of(c) && b.is_prefix_of(c.skip(al)) {
        assert forall|i: int| 0 <= i < al + bl implies (a + b)[i] == c.take(al + bl)[i] by {
            if i < al {
                assert(a[i] == c.take(al)[i]);
            } else {
                assert(b[i - al] == c.skip(al).take(bl)[i - al]);
            }
        }
        assert(a + b =~= c.take(al + bl));
    }
    if (a + b).is_prefix_of(c) {
        assert forall|i: int| 0 <= i < al implies a[i] == c.take(al)[i] by {
            assert((a + b)[i] == c.take(al + bl)[i]);
        }
        assert(a =~= c.take(al));
        assert forall|i: int| 0 <= i < bl implies b[i] == c.skip(al).take(bl)[i] by {
            assert((a + b)[al + i] == c.take(al + bl)[al + i]);
        }
        assert(b =~= c.skip(al).take(bl));
    }
}

impl<T: Canon> Canon for Vec<T> {
    open spec fn wf(&self) -> bool {
        seq_wf(self@) && self@.len() < 0x100000000 && self.enc().len() <= usize::MAX
    }

    open spec fn eq_decodable() -> bool {
        false
    }

    open spec fn enc(&self) -> Seq<u8> {
        le_bytes(self@.len() as nat, 4) + seq_enc(self@)
    }

    fn encoded_len(&self) -> (n: usize) {
        let count = self.len();
        let mut total: usize = 4;
        let mut i: usize = 0;
        proof {
            lemma_le_bytes_len(self@.len() as nat, 4);
            assert(seq_enc(self@.take(0)) =~= Seq::<u8>::empty());
        }
        while i < count
            invariant
                i <= count,
                count == self@.len(),
                self.wf(),
                total == 4 + seq_enc(self@.take(i as int)).len(),
            decreases count - i,
        {
            proof {
                lemma_le_bytes_len(self@.len() as nat, 4);
                lemma_seq_enc_push(self@.take(i as int), self@[i as int]);
                assert(self@.take(i as int).push(self@[i as int]) =~= self@.take(i + 1));
                lemma_seq_enc_split(self@, i + 1);
            }
            let el = self[i].encoded_len();
            total = total + el;
            i = i + 1;
        }
        proof {
            assert(self@.take(count as int) =~= self@);
        }
        total
    }

    fn write<Snk: Sink>(&self, sink: &mut Snk) {
        let ghost s0 = sink.sunk();
        let count = self.len();
        let n32: u32 = count as u32;
        proof {
            lemma_le_bytes_len(self@.len() as nat, 4);
        }
        n32.write(sink);
        let mut i: usize = 0;
        proof {
            assert(seq_enc(self@.take(0)) =~= Seq::<u8>::empty());
            if sink.exact() {
                assert(sink.sunk() =~= s0 + le_bytes(self@.len() as nat, 4) + seq_enc(
                    self@.take(0),
                ));
            }
        }
        while i < count
            invariant
                i <= count,
                count == self@.len(),
                self.wf(),
                s0.len() + self.enc().len() <= usize::MAX,
                sink.wf(),
                sink.exact() == old(sink).exact(),
                sink.commits() == old(sink).commits(),
                sink.sunk().len() == s0.len() + 4 + seq_enc(self@.take(i as int)).len(),
                old(sink).exact() ==> sink.sunk() == s0 + le_bytes(self@.len() as nat, 4)
                    + seq_enc(self@.take(i as int)),
            decreases count - i,
        {
            proof {
                lemma_le_bytes_len(self@.len() as nat, 4);
                lemma_seq_enc_push(self@.take(i as int), self@[i as int]);
                assert(self@.take(i as int).push(self@[i as int]) =~= self@.take(i + 1));
                lemma_seq_enc_split(self@, i + 1);
            }
            let ghost before = sink.sunk();
            self[i].write(sink);
            i = i + 1;
            proof {
                if sink.exact() {
                    assert(sink.sunk() =~= s0 + le_bytes(self@.len() as nat, 4) + seq_enc(
                        self@.take(i as int),
                    ));
                }
            }
        }
        proof {
            assert(self@.take(count as int) =~= self@);
            if sink.exact() {
                assert(s0 + le_bytes(self@.len() as nat, 4) + seq_enc(self@) =~= s0 + self.enc());
            }
        }
    }

    fn read<Src: Source>(source: &mut Src) -> (r: Result<Self, CanonError>) {
        let ghost rem0 = source.remaining();
        proof {
            source.lemma_remaining_bounded();
            lemma_le_bytes_len(rem0.len() as nat, 0);
        }
        let len_read = u32::read(source);
        let count = match len_read {
            Ok(c) => c,
            Err(_) => {
                proof {
                    assert forall|x: Vec<T>|
                        !(x.wf() && (#[trigger] x.enc()).is_prefix_of(rem0)) by {
                        if x.wf() && x.enc().is_prefix_of(rem0) {
                            lemma_concat_prefix(
                                le_bytes(x@.len() as nat, 4),
                                seq_enc(x@),
                                rem0,
                            );
                            let w: u32 = x@.len() as u32;
                            assert(w.enc().is_prefix_of(rem0));
                        }
                    }
                }
                return Err(CanonError::InvalidEncoding);
            },
        };
        let ghost rem1 = source.remaining();
        proof {
            lemma_le_bytes_len(count as nat, 4);
            lemma_pow256_vals();
            crate::bytes::lemma_from_le_of_le_bytes(count as nat, 4);
        }
        let mut out: Vec<T> = Vec::new();
        let mut i: u32 = 0;
        proof {
            assert(seq_enc(out@) =~= Seq::<u8>::empty());
            assert forall|s: Seq<T>|
                seq_wf(s) && (#[trigger] seq_enc(s)).is_prefix_of(rem1) && s.len() == count
                    implies seq_enc(s.take(i as int)) == seq_enc(out@) && seq_enc(
                s.skip(i as int),
            ).is_prefix_of(source.remaining()) by {
                assert(s.take(0) =~= out@);
                assert(s.skip(0) =~= s);
            }
        }
        while i < count
            invariant
                i <= count,
                out@.len() == i,
                seq_wf(out@),
                source.wf(),
                rem0 == old(source).remaining(),
                rem0.len() <= usize::MAX,
                count as nat == from_le(rem0.take(4)),
                rem0.len() >= 4,
                rem1 == rem0.skip(4),
                rem1 == seq_enc(out@) + source.remaining(),
                forall|s: Seq<T>|
                    seq_wf(s) && (#[trigger] seq_enc(s)).is_prefix_of(rem1) && s.len() == count
                        ==> seq_enc(s.take(i as int)) == seq_enc(out@) && seq_enc(
                        s.skip(i as int),
                    ).is_prefix_of(source.remaining()),
            decreases count - i,
        {
            let ghost cur = source.remaining();
            let ghost done = out@;
            let inner = T::read(source);
            match inner {
                Ok(t) => {
                    proof {
                        lemma_seq_enc_push(out@, t);
                        assert(seq_enc(done) + (t.enc() + source.remaining()) =~= (seq_enc(done)
                            + t.enc()) + source.remaining());
                        assert(t.enc() + source.remaining() =~= cur);
                    }
                    out.push(t);
                    i = i + 1;
                    proof {
                        assert forall|s: Seq<T>|
                            seq_wf(s) && (#[trigger] seq_enc(s)).is_prefix_of(rem1) && s.len()
                                == count implies seq_enc(s.take(i as int)) == seq_enc(out@)
                            && seq_enc(s.skip(i as int)).is_prefix_of(source.remaining()) by {
                            lemma_seq_enc_head(s, i - 1, cur);
                            assert(s.take(i as int) =~= s.take(i - 1).push(s[i - 1]));
                            lemma_seq_enc_push(s.take(i - 1), s[i - 1]);
                        }
                    }
                },
                Err(_) => {
                    proof {
                        assert forall|x: Vec<T>|
                            !(x.wf() && (#[trigger] x.enc()).is_prefix_of(rem0)) by {
                            if x.wf() && x.enc().is_prefix_of(rem0) {
                                lemma_vec_len_match(x, rem0, count);
                                lemma_seq_enc_head(x@, i as int, cur);
                            }
                        }
                    }
                    return Err(CanonError::InvalidEncoding);
                },
            }
        }
        let ghost fin_rem = source.remaining();
        proof {
            assert forall|x: Vec<T>|
                x.wf() && (#[trigger] x.enc()).is_prefix_of(rem0) implies x.enc() == out.enc() by {
                lemma_vec_len_match(x, rem0, count);
                assert(x@.take(count as int) =~= x@);
            }
            lemma_uint_head(rem0, 4);
            lemma_le_bytes_len(count as nat, 4);
            lemma_concat_prefix(le_bytes(count as nat, 4), seq_enc(out@), rem0);
            assert(out.enc() == le_bytes(count as nat, 4) + seq_enc(out@));
            assert(fin_rem =~= rem1.skip(seq_enc(out@).len() as int));
            assert(rem1.skip(seq_enc(out@).len() as int) =~= rem0.skip(out.enc().len() as int));
            assert(fin_rem =~= rem0.skip(out.enc().len() as int));
        }
        Ok(out)
    }
}

/// A well-formed vector whose image heads the input has the length the
/// four-byte prefix announces, and its elements' images head the rest.
proof fn lemma_vec_len_match<T: Canon>(x: Vec<T>, rem0: Seq<u8>, count: u32)
    requires
        x.wf(),
        x.enc().is_prefix_of(rem0),
        rem0.len() >= 4,
        count as nat == from_le(rem0.take(4)),
    ensures
        x@.len() == count,
        seq_enc(x@).is_prefix_of(rem0.skip(4)),
{
    lemma_concat_prefix(le_bytes(x@.len() as nat, 4), seq_enc(x@), rem0);
    lemma_le_bytes_len(x@.len() as nat, 4);
    assert(le_bytes(x@.len() as nat, 4) == rem0.take(4));
    lemma_pow256_vals();
    crate::bytes::lemma_from_le_of_le_bytes(x@.len() as nat, 4);
}

/// When the images of the elements from position `i` on head the input,
/// the image of element `i` heads it, and the images of the elements after
/// it head what follows.
proof fn lemma_seq_enc_head<T: Canon>(s: Seq<T>, i: int, cur: Seq<u8>)
    requires
        0 <= i < s.len(),
        seq_enc(s.skip(i)).is_prefix_of(cur),
    ensures
        s[i].enc().is_prefix_of(cur),
        seq_enc(s.skip(i + 1)).is_prefix_of(cur.skip(s[i].enc().len() as int)),
{
    assert(seq_enc(s.skip(i)) == s.skip(i)[0].enc() + seq_enc(s.skip(i).skip(1)));
    assert(s.skip(i)[0] == s[i]);
    assert(s.skip(i).skip(1) =~= s.skip(i + 1));
    lemma_concat_prefix(s[i].enc(), seq_enc(s.skip(i + 1)), cur);
}

impl Canon for () {
    open spec fn wf(&self) -> bool {
        true
    }

    open spec fn eq_decodable() -> bool {
        true
    }

    open spec fn enc(&self) -> Seq<u8> {
        Seq::empty()
    }

    fn encoded_len(&self) -> (n: usize) {
        0
    }

    fn write<Snk: Sink>(&self, sink: &mut Snk) {
        let ghost s0 = sink.sunk();
        proof {
            assert(s0 + self.enc() =~= s0);
        }
    }

    fn read<Src: Source>(source: &mut Src) -> (r: Result<Self, CanonError>) {
        proof {
            assert(source.remaining().skip(0) =~= source.remaining());
        }
        Ok(())
    }
}

} // verus!
