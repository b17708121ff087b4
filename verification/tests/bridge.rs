use canon::canon::{Canon, Sink, VecSink};
use canon::counter::{
    ADJUST, COMPARE_AND_SWAP, Counter, DECREMENT, INCREMENT, IS_EVEN, READ_VALUE, XOR_VALUE, q, t,
};

fn encode<T: Canon>(v: &T) -> Vec<u8> {
    let mut sink = VecSink::new();
    v.write(&mut sink);
    sink.into_bytes()
}

fn page_with(state: Counter, rest: &[u8]) -> Vec<u8> {
    let mut page = encode(&state);
    page.extend_from_slice(rest);
    while page.len() < 64 {
        page.push(0);
    }
    page
}

#[test]
fn query_read_value() {
    let mut page = page_with(Counter::new(13), &[READ_VALUE]);
    q(&mut page);
    assert_eq!(&page[..4], &encode(&13i32)[..]);
}

#[test]
fn query_xor_values() {
    let mut rest = vec![XOR_VALUE];
    rest.extend_from_slice(&encode(&0x0f0fi32));
    rest.extend_from_slice(&encode(&0x00ffi32));
    let mut page = page_with(Counter::new(0x1111), &rest);
    q(&mut page);
    assert_eq!(&page[..4], &encode(&(0x1111i32 ^ 0x0f0f ^ 0x00ff))[..]);
}

#[test]
fn query_is_even() {
    let mut page = page_with(Counter::new(13), &[IS_EVEN]);
    q(&mut page);
    assert_eq!(page[0], 0);

    let mut page = page_with(Counter::new(-4), &[IS_EVEN]);
    q(&mut page);
    assert_eq!(page[0], 1);
}

#[test]
fn query_unknown_id_leaves_page() {
    let page0 = page_with(Counter::new(5), &[9]);
    let mut page = page0.clone();
    q(&mut page);
    assert_eq!(page, page0);
}

#[test]
fn transaction_increment_decrement() {
    let mut page = page_with(Counter::new(13), &INCREMENT.to_le_bytes());
    t(&mut page);
    assert_eq!(&page[..8], &encode(&Counter::new(14))[..]);

    let mut page = page_with(Counter::new(13), &DECREMENT.to_le_bytes());
    t(&mut page);
    assert_eq!(&page[..8], &encode(&Counter::new(12))[..]);
}

#[test]
fn transaction_increment_overflow_aborts() {
    let page0 = page_with(Counter::new(i32::MAX), &INCREMENT.to_le_bytes());
    let mut page = page0.clone();
    t(&mut page);
    assert_eq!(page, page0);
}

#[test]
fn transaction_adjust() {
    let mut rest = ADJUST.to_le_bytes().to_vec();
    rest.extend_from_slice(&encode(&-20i32));
    let mut page = page_with(Counter::new(13), &rest);
    t(&mut page);
    assert_eq!(&page[..8], &encode(&Counter::new(-7))[..]);
}

#[test]
fn transaction_compare_and_swap() {
    let mut rest = COMPARE_AND_SWAP.to_le_bytes().to_vec();
    rest.extend_from_slice(&encode(&13i32));
    rest.extend_from_slice(&encode(&99i32));
    let mut page = page_with(Counter::new(13), &rest);
    t(&mut page);
    assert_eq!(&page[..8], &encode(&Counter::new(99))[..]);
    assert_eq!(page[8], 1);

    let mut rest = COMPARE_AND_SWAP.to_le_bytes().to_vec();
    rest.extend_from_slice(&encode(&5i32));
    rest.extend_from_slice(&encode(&99i32));
    let mut page = page_with(Counter::new(13), &rest);
    t(&mut page);
    assert_eq!(&page[..8], &encode(&Counter::new(13))[..]);
    assert_eq!(page[8], 0);
}

#[test]
fn counter_methods() {
    let mut c = Counter::new(10);
    assert_eq!(c.read_value(), 10);
    assert_eq!(c.xor_values(3, 5), 10 ^ 3 ^ 5);
    assert!(c.is_even());
    c.increment();
    assert_eq!(c.read_value(), 11);
    assert!(!c.is_even());
    c.decrement();
    c.adjust(31);
    assert_eq!(c.read_value(), 41);
    assert!(!c.compare_and_swap(7, 0));
    assert_eq!(c.read_value(), 41);
    assert!(c.compare_and_swap(41, 0));
    assert_eq!(c.read_value(), 0);
}
