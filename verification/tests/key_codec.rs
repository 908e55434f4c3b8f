//! Keys: byte encodings, round trips, and order preservation.

use pliantdb::key::{encode_decode, Key, Uuid};

#[test]
fn primitive_key_encoding_tests() {
    // Unsigned keys lay out exactly their big-endian bytes.
    assert_eq!(&u8::MAX.to_be_bytes()[..], &u8::MAX.as_big_endian_bytes().unwrap()[..]);
    assert_eq!(&u16::MAX.to_be_bytes()[..], &u16::MAX.as_big_endian_bytes().unwrap()[..]);
    assert_eq!(&u32::MAX.to_be_bytes()[..], &u32::MAX.as_big_endian_bytes().unwrap()[..]);
    assert_eq!(&u64::MAX.to_be_bytes()[..], &u64::MAX.as_big_endian_bytes().unwrap()[..]);
    assert_eq!(&u128::MAX.to_be_bytes()[..], &u128::MAX.as_big_endian_bytes().unwrap()[..]);

    // Signed keys are offset past their most negative value, so the
    // largest value is all ones and the smallest all zeroes.
    assert_eq!(vec![0xffu8; 1], i8::MAX.as_big_endian_bytes().unwrap());
    assert_eq!(vec![0xffu8; 2], i16::MAX.as_big_endian_bytes().unwrap());
    assert_eq!(vec![0xffu8; 4], i32::MAX.as_big_endian_bytes().unwrap());
    assert_eq!(vec![0xffu8; 8], i64::MAX.as_big_endian_bytes().unwrap());
    assert_eq!(vec![0xffu8; 16], i128::MAX.as_big_endian_bytes().unwrap());
    assert_eq!(vec![0x00u8; 1], i8::MIN.as_big_endian_bytes().unwrap());

    assert_eq!(i8::MAX, i8::from_big_endian_bytes(&i8::MAX.as_big_endian_bytes().unwrap()).unwrap());
    assert_eq!(i8::MIN, i8::from_big_endian_bytes(&i8::MIN.as_big_endian_bytes().unwrap()).unwrap());
    assert_eq!(u8::MAX, u8::from_big_endian_bytes(&u8::MAX.as_big_endian_bytes().unwrap()).unwrap());
    assert_eq!(u8::MIN, u8::from_big_endian_bytes(&u8::MIN.as_big_endian_bytes().unwrap()).unwrap());
    assert_eq!(
        i16::MAX,
        i16::from_big_endian_bytes(&i16::MAX.as_big_endian_bytes().unwrap()).unwrap()
    );
    assert_eq!(
        i16::MIN,
        i16::from_big_endian_bytes(&i16::MIN.as_big_endian_bytes().unwrap()).unwrap()
    );
    assert_eq!(
        u16::MAX,
        u16::from_big_endian_bytes(&u16::MAX.as_big_endian_bytes().unwrap()).unwrap()
    );
    assert_eq!(
        u16::MIN,
        u16::from_big_endian_bytes(&u16::MIN.as_big_endian_bytes().unwrap()).unwrap()
    );
    assert_eq!(
        i32::MAX,
        i32::from_big_endian_bytes(&i32::MAX.as_big_endian_bytes().unwrap()).unwrap()
    );
    assert_eq!(
        i32::MIN,
        i32::from_big_endian_bytes(&i32::MIN.as_big_endian_bytes().unwrap()).unwrap()
    );
    assert_eq!(
        u32::MAX,
        u32::from_big_endian_bytes(&u32::MAX.as_big_endian_bytes().unwrap()).unwrap()
    );
    assert_eq!(
        u32::MIN,
        u32::from_big_endian_bytes(&u32::MIN.as_big_endian_bytes().unwrap()).unwrap()
    );
    assert_eq!(
        i64::MAX,
        i64::from_big_endian_bytes(&i64::MAX.as_big_endian_bytes().unwrap()).unwrap()
    );
    assert_eq!(
        i64::MIN,
        i64::from_big_endian_bytes(&i64::MIN.as_big_endian_bytes().unwrap()).unwrap()
    );
    assert_eq!(
        u64::MAX,
        u64::from_big_endian_bytes(&u64::MAX.as_big_endian_bytes().unwrap()).unwrap()
    );
    assert_eq!(
        u64::MIN,
        u64::from_big_endian_bytes(&u64::MIN.as_big_endian_bytes().unwrap()).unwrap()
    );
    assert_eq!(
        i128::MAX,
        i128::from_big_endian_bytes(&i128::MAX.as_big_endian_bytes().unwrap()).unwrap()
    );
    assert_eq!(
        i128::MIN,
        i128::from_big_endian_bytes(&i128::MIN.as_big_endian_bytes().unwrap()).unwrap()
    );
    assert_eq!(
        u128::MAX,
        u128::from_big_endian_bytes(&u128::MAX.as_big_endian_bytes().unwrap()).unwrap()
    );
    assert_eq!(
        u128::MIN,
        u128::from_big_endian_bytes(&u128::MIN.as_big_endian_bytes().unwrap()).unwrap()
    );
}

#[test]
fn optional_key_encoding_tests() {
    assert!(Option::<i8>::None.as_big_endian_bytes().unwrap().is_empty());
    assert_eq!(
        Some(1_i8),
        Option::from_big_endian_bytes(&Some(1_i8).as_big_endian_bytes().unwrap()).unwrap()
    );
}

#[test]
fn unit_key_encoding_tests() {
    assert!(().as_big_endian_bytes().unwrap().is_empty());
    assert_eq!((), <() as Key>::from_big_endian_bytes(&[]).unwrap());
}

#[test]
fn vec_key_encoding_tests() {
    const ORIGINAL_VALUE: &[u8] = b"pliantdb";
    let vec = ORIGINAL_VALUE.to_vec();
    assert_eq!(
        vec.clone(),
        Vec::<u8>::from_big_endian_bytes(&vec.as_big_endian_bytes().unwrap()).unwrap()
    );
}

#[test]
fn round_trip_many_key_types() {
    assert_eq!(encode_decode(&42u32).unwrap(), 42u32);
    assert_eq!(encode_decode(&-42i32).unwrap(), -42i32);
    assert_eq!(encode_decode(&String::from("hello")).unwrap(), "hello");
    assert_eq!(encode_decode(&Some(7u64)).unwrap(), Some(7u64));
    let uuid = Uuid::from_bytes((0u8..16u8).collect()).unwrap();
    assert_eq!(encode_decode(&uuid).unwrap().bytes, (0u8..16u8).collect::<Vec<u8>>());
}

#[test]
fn encoded_order_matches_natural_order() {
    // Unsigned: numeric order equals byte order.
    let two = 2u32.as_big_endian_bytes().unwrap();
    let million = 1_000_000u32.as_big_endian_bytes().unwrap();
    assert!(two < million);

    // Signed: negatives sort before positives.
    let minus = (-5i64).as_big_endian_bytes().unwrap();
    let plus = 5i64.as_big_endian_bytes().unwrap();
    let zero = 0i64.as_big_endian_bytes().unwrap();
    assert!(minus < zero);
    assert!(zero < plus);

    // Text: byte order of the UTF-8 encoding.
    let apple = String::from("apple").as_big_endian_bytes().unwrap();
    let banana = String::from("banana").as_big_endian_bytes().unwrap();
    assert!(apple < banana);

    // Optional keys: absence sorts first.
    let none = Option::<u16>::None.as_big_endian_bytes().unwrap();
    let some = Some(0u16).as_big_endian_bytes().unwrap();
    assert!(none < some);
}

#[test]
fn option_codec_discipline() {
    // An optional key cannot hide an empty inner encoding.
    assert!(Some(()).as_big_endian_bytes().is_err());
    // A present key encodes exactly as the key itself.
    assert_eq!(
        Some(9u32).as_big_endian_bytes().unwrap(),
        9u32.as_big_endian_bytes().unwrap()
    );
}

#[test]
fn string_key_rejects_invalid_bytes() {
    assert!(String::from_big_endian_bytes(&[0xff, 0xfe]).is_err());
    assert_eq!(
        String::from_big_endian_bytes("text".as_bytes()).unwrap(),
        "text"
    );
}

#[test]
fn fixed_width_keys_reject_wrong_lengths() {
    assert!(u32::from_big_endian_bytes(&[0, 1, 2]).is_err());
    assert!(i64::from_big_endian_bytes(&[0; 9]).is_err());
    assert!(Uuid::from_bytes(vec![1, 2, 3]).is_err());
}
