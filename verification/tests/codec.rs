use canon::CanonError;
use canon::canon::{ByteSource, Canon, DrySink, Sink, Source, VecSink};
use canon::id::{Id, IdBuilder};
use canon::store::{MemStore, StoreSink};

fn encode<T: Canon>(t: &T) -> Vec<u8> {
    let mut sink = VecSink::new();
    t.write(&mut sink);
    sink.into_bytes()
}

fn decode<T: Canon>(bytes: Vec<u8>) -> Result<T, CanonError> {
    let mut source = ByteSource::new(bytes);
    T::read(&mut source)
}

#[test]
fn integers_little_endian() {
    assert_eq!(encode(&0x12u8), vec![0x12]);
    assert_eq!(encode(&0x1234u16), vec![0x34, 0x12]);
    assert_eq!(encode(&0x12345678u32), vec![0x78, 0x56, 0x34, 0x12]);
    assert_eq!(
        encode(&0x0102030405060708u64),
        vec![0x08, 0x07, 0x06, 0x05, 0x04, 0x03, 0x02, 0x01]
    );
    assert_eq!(encode(&1u128).len(), 16);
    assert_eq!(encode(&(-2i32)), vec![0xfe, 0xff, 0xff, 0xff]);
    assert_eq!(encode(&(-1i8)), vec![0xff]);
    assert_eq!(encode(&(-1i16)), vec![0xff, 0xff]);
}

#[test]
fn integer_roundtrips() {
    assert_eq!(decode::<u8>(encode(&255u8)), Ok(255));
    assert_eq!(decode::<u16>(encode(&0xbeefu16)), Ok(0xbeef));
    assert_eq!(decode::<u32>(encode(&0xdeadbeefu32)), Ok(0xdeadbeef));
    assert_eq!(decode::<u64>(encode(&u64::MAX)), Ok(u64::MAX));
    assert_eq!(decode::<u128>(encode(&u128::MAX)), Ok(u128::MAX));
    assert_eq!(decode::<i8>(encode(&i8::MIN)), Ok(i8::MIN));
    assert_eq!(decode::<i16>(encode(&-12345i16)), Ok(-12345));
    assert_eq!(decode::<i32>(encode(&i32::MIN)), Ok(i32::MIN));
    assert_eq!(decode::<i64>(encode(&i64::MIN)), Ok(i64::MIN));
    assert_eq!(decode::<i128>(encode(&i128::MIN)), Ok(i128::MIN));
}

#[test]
fn truncated_input_is_invalid() {
    assert_eq!(decode::<u64>(vec![1, 2, 3]), Err(CanonError::InvalidEncoding));
    assert_eq!(decode::<u8>(vec![]), Err(CanonError::InvalidEncoding));
}

#[test]
fn bool_is_strict() {
    assert_eq!(encode(&true), vec![1]);
    assert_eq!(encode(&false), vec![0]);
    assert_eq!(decode::<bool>(vec![0]), Ok(false));
    assert_eq!(decode::<bool>(vec![1]), Ok(true));
    assert_eq!(decode::<bool>(vec![2]), Err(CanonError::InvalidEncoding));
}

#[test]
fn option_and_result() {
    let none: Option<u16> = None;
    assert_eq!(encode(&none), vec![0]);
    let some: Option<u16> = Some(0x0a0b);
    assert_eq!(encode(&some), vec![1, 0x0b, 0x0a]);
    assert_eq!(decode::<Option<u16>>(encode(&some)), Ok(some));

    let ok: Result<u8, u16> = Ok(3);
    assert_eq!(encode(&ok), vec![0, 3]);
    let err: Result<u8, u16> = Err(0x0102);
    assert_eq!(encode(&err), vec![1, 2, 1]);
    assert_eq!(decode::<Result<u8, u16>>(encode(&err)), Ok(err));
    assert_eq!(decode::<Result<u8, u16>>(vec![7]), Err(CanonError::InvalidEncoding));
}

#[test]
fn sequences_carry_length_prefix() {
    let v: Vec<u32> = vec![1, 2];
    assert_eq!(encode(&v), vec![2, 0, 0, 0, 1, 0, 0, 0, 2, 0, 0, 0]);
    assert_eq!(v.encoded_len(), 12);
    assert_eq!(decode::<Vec<u32>>(encode(&v)), Ok(v));

    let empty: Vec<u8> = vec![];
    assert_eq!(encode(&empty), vec![0, 0, 0, 0]);
    assert_eq!(decode::<Vec<u8>>(encode(&empty)), Ok(empty));
}

#[test]
fn incremental_fingerprint_matches_one_shot() {
    let mut all = IdBuilder::new();
    all.update(&[1, 2, 3, 4, 5, 6]);
    let whole = all.finalize();

    let mut split = IdBuilder::new();
    split.update(&[1, 2, 3]);
    split.update(&[4, 5, 6]);
    let pieces = split.finalize();

    assert_eq!(whole, pieces);

    let mut other = IdBuilder::new();
    other.update(&[1, 2, 3, 4, 5, 7]);
    assert_ne!(whole, other.finalize());

    assert_eq!(Id::zero(), Id::from_hash(0));
}

#[test]
fn sink_protocol() {
    // A child sink opened for a subtree starts empty and leaves its
    // parent's bytes alone.
    let mut parent = VecSink::new();
    0x11u8.write(&mut parent);
    let mut child = parent.recur();
    0x2222u16.write(&mut child);
    let child_id = child.fin();
    assert_eq!(parent.into_bytes(), vec![0x11]);

    // Sealing commits by content: the same bytes earn the same identifier,
    // through a store-backed sink or by bare fingerprinting.
    let store = MemStore::new();
    let mut sink = StoreSink::new(&store);
    0x2222u16.write(&mut sink);
    assert_eq!(sink.fin(), child_id);
    assert_eq!(child_id, MemStore::ident(&0x2222u16));

    // A dry run counts without keeping anything and seals to nothing.
    let dry = DrySink::new();
    assert_eq!(dry.fin(), Id::zero());
}

#[test]
fn source_reports_remaining() {
    let mut source = ByteSource::new(vec![1, 2, 3]);
    assert_eq!(source.remaining_len(), 3);
    let _ = u8::read(&mut source).unwrap();
    assert_eq!(source.remaining_len(), 2);
}
