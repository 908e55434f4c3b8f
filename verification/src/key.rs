//! Typed keys and their order-preserving byte encoding.
//!
//! A [`Key`] is a value that can be turned into a byte string and back
//! such that the byte strings, compared lexicographically, order
//! exactly as the values themselves do.  Fixed-width integers are laid
//! out big-endian (signed ones offset past their most negative value),
//! byte strings and text pass through as their bytes, the unit key is
//! empty, and an optional key encodes `None` as the empty string.

use vstd::prelude::*;

verus! {

use crate::codec::{
    be_bytes, be_val, lex_lt, pow256, encode_be, decode_be, lemma_be_bytes_len,
    lemma_be_val_bound, lemma_be_val_be_bytes, lemma_be_bytes_be_val, lemma_be_order_iff,
    lemma_pow256_values,
};

/// A key could not be encoded or decoded.
#[derive(Debug)]
pub struct KeyError {
    /// What went wrong, as readable text.
    pub message: String,
}

/// A type that converts itself to and from big-endian/network byte
/// order, preserving its natural order.
///
/// The two conversion methods carry the functional contract; the three
/// lemmas are laws every implementation must prove:
/// `lemma_encodable_decodable` closes the loop between the two
/// methods, `lemma_injective` makes decoding unambiguous (so a
/// round trip returns the original key), and `lemma_order` states that
/// lexicographic byte order equals the key's natural order.
pub trait Key: Sized + DeepView {
    /// Whether this value has a byte encoding at all.
    spec fn encodable(&self) -> bool;

    /// The byte encoding of this value.
    spec fn encoded(&self) -> Seq<u8>;

    /// Whether `bytes` is the encoding of some value of this type.
    spec fn decodable(bytes: Seq<u8>) -> bool;

    /// The natural strict order of this key type.
    spec fn key_lt(&self, other: &Self) -> bool;

    /// Converts `self` into bytes ordered in big-endian/network byte order.
    fn as_big_endian_bytes(&self) -> (r: Result<Vec<u8>, KeyError>)
        ensures
            match r {
                Ok(v) => self.encodable() && v@ == self.encoded(),
                Err(_) => !self.encodable(),
            },
    ;

    /// Converts a slice of bytes into `Self` by interpreting `bytes` in
    /// big-endian/network byte order.
    fn from_big_endian_bytes(bytes: &[u8]) -> (r: Result<Self, KeyError>)
        ensures
            match r {
                Ok(v) => Self::decodable(bytes@) && v.encodable() && v.encoded() == bytes@,
                Err(_) => !Self::decodable(bytes@),
            },
    ;

    /// Every encoding produced by this type can be decoded again.
    proof fn lemma_encodable_decodable(&self)
        requires
            self.encodable(),
        ensures
            Self::decodable(self.encoded()),
    ;

    /// No two distinct values share an encoding, so decoding an
    /// encoded key recovers exactly the key that was encoded.
    proof fn lemma_injective(a: &Self, b: &Self)
        requires
            a.encodable(),
            b.encodable(),
            a.encoded() == b.encoded(),
        ensures
            a.deep_view() == b.deep_view(),
    ;

    /// Encoded byte order agrees with the key's natural order.
    proof fn lemma_order(a: &Self, b: &Self)
        requires
            a.encodable(),
            b.encodable(),
        ensures
            a.key_lt(b) <==> lex_lt(a.encoded(), b.encoded()),
    ;
}

/// Encodes a key and decodes the bytes straight back.  Its contract is
/// the round-trip law: for every encodable key the result is `Ok` and
/// holds a key equal to the input.
pub fn encode_decode<K: Key>(key: &K) -> (r: Result<K, KeyError>)
    ensures
        match r {
            Ok(w) => key.encodable() && w.deep_view() == key.deep_view(),
            Err(_) => !key.encodable(),
        },
{
    let bytes = match key.as_big_endian_bytes() {
        Ok(b) => b,
        Err(e) => {
            return Err(e);
        },
    };
    proof {
        key.lemma_encodable_decodable();
    }
    match K::from_big_endian_bytes(bytes.as_slice()) {
        Ok(w) => {
            proof {
                K::lemma_injective(key, &w);
            }
            Ok(w)
        },
        Err(e) => Err(e),
    }
}

/// Checks the length of a fixed-width key's bytes and reads the value.
fn decode_uint_checked(bytes: &[u8], width: usize) -> (r: Result<u128, KeyError>)
    requires
        1 <= width <= 16,
    ensures
        match r {
            Ok(v) => bytes@.len() == width && v as nat == be_val(bytes@),
            Err(_) => bytes@.len() != width,
        },
{
    if bytes.len() == width {
        Ok(decode_be(bytes))
    } else {
        Err(KeyError { message: "incorrect byte length".to_owned() })
    }
}

impl Key for u8 {
    open spec fn encodable(&self) -> bool {
        true
    }

    open spec fn encoded(&self) -> Seq<u8> {
        be_bytes(*self as nat, 1)
    }

    open spec fn decodable(bytes: Seq<u8>) -> bool {
        bytes.len() == 1
    }

    open spec fn key_lt(&self, other: &Self) -> bool {
        *self < *other
    }

    fn as_big_endian_bytes(&self) -> (r: Result<Vec<u8>, KeyError>) {
        Ok(encode_be(*self as u128, 1))
    }

    fn from_big_endian_bytes(bytes: &[u8]) -> (r: Result<Self, KeyError>) {
        match decode_uint_checked(bytes, 1) {
            Ok(v) => {
                proof {
                    lemma_pow256_values();
                    lemma_be_val_bound(bytes@);
                    lemma_be_bytes_be_val(bytes@);
                }
                Ok(v as u8)
            },
            Err(e) => Err(e),
        }
    }

    proof fn lemma_encodable_decodable(&self) {
        lemma_be_bytes_len(*self as nat, 1);
    }

    proof fn lemma_injective(a: &Self, b: &Self) {
        lemma_pow256_values();
        lemma_be_val_be_bytes(*a as nat, 1);
        lemma_be_val_be_bytes(*b as nat, 1);
    }

    proof fn lemma_order(a: &Self, b: &Self) {
        lemma_pow256_values();
        lemma_be_order_iff(*a as nat, *b as nat, 1);
    }
}

impl Key for u16 {
    open spec fn encodable(&self) -> bool {
        true
    }

    open spec fn encoded(&self) -> Seq<u8> {
        be_bytes(*self as nat, 2)
    }

    open spec fn decodable(bytes: Seq<u8>) -> bool {
        bytes.len() == 2
    }

    open spec fn key_lt(&self, other: &Self) -> bool {
        *self < *other
    }

    fn as_big_endian_bytes(&self) -> (r: Result<Vec<u8>, KeyError>) {
        proof {
            lemma_pow256_values();
        }
        Ok(encode_be(*self as u128, 2))
    }

    fn from_big_endian_bytes(bytes: &[u8]) -> (r: Result<Self, KeyError>) {
        match decode_uint_checked(bytes, 2) {
            Ok(v) => {
                proof {
                    lemma_pow256_values();
                    lemma_be_val_bound(bytes@);
                    lemma_be_bytes_be_val(bytes@);
                }
                Ok(v as u16)
            },
            Err(e) => Err(e),
        }
    }

    proof fn lemma_encodable_decodable(&self) {
        lemma_be_bytes_len(*self as nat, 2);
    }

    proof fn lemma_injective(a: &Self, b: &Self) {
        lemma_pow256_values();
        lemma_be_val_be_bytes(*a as nat, 2);
        lemma_be_val_be_bytes(*b as nat, 2);
    }

    proof fn lemma_order(a: &Self, b: &Self) {
        lemma_pow256_values();
        lemma_be_order_iff(*a as nat, *b as nat, 2);
    }
}

impl Key for u32 {
    open spec fn encodable(&self) -> bool {
        true
    }

    open spec fn encoded(&self) -> Seq<u8> {
        be_bytes(*self as nat, 4)
    }

    open spec fn decodable(bytes: Seq<u8>) -> bool {
        bytes.len() == 4
    }

    open spec fn key_lt(&self, other: &Self) -> bool {
        *self < *other
    }

    fn as_big_endian_bytes(&self) -> (r: Result<Vec<u8>, KeyError>) {
        proof {
            lemma_pow256_values();
        }
        Ok(encode_be(*self as u128, 4))
    }

    fn from_big_endian_bytes(bytes: &[u8]) -> (r: Result<Self, KeyError>) {
        match decode_uint_checked(bytes, 4) {
            Ok(v) => {
                proof {
                    lemma_pow256_values();
                    lemma_be_val_bound(bytes@);
                    lemma_be_bytes_be_val(bytes@);
                }
                Ok(v as u32)
            },
            Err(e) => Err(e),
        }
    }

    proof fn lemma_encodable_decodable(&self) {
        lemma_be_bytes_len(*self as nat, 4);
    }

    proof fn lemma_injective(a: &Self, b: &Self) {
        lemma_pow256_values();
        lemma_be_val_be_bytes(*a as nat, 4);
        lemma_be_val_be_bytes(*b as nat, 4);
    }

    proof fn lemma_order(a: &Self, b: &Self) {
        lemma_pow256_values();
        lemma_be_order_iff(*a as nat, *b as nat, 4);
    }
}

impl Key for u64 {
    open spec fn encodable(&self) -> bool {
        true
    }

    open spec fn encoded(&self) -> Seq<u8> {
        be_bytes(*self as nat, 8)
    }

    open spec fn decodable(bytes: Seq<u8>) -> bool {
        bytes.len() == 8
    }

    open spec fn key_lt(&self, other: &Self) -> bool {
        *self < *other
    }

    fn as_big_endian_bytes(&self) -> (r: Result<Vec<u8>, KeyError>) {
        proof {
            lemma_pow256_values();
        }
        Ok(encode_be(*self as u128, 8))
    }

    fn from_big_endian_bytes(bytes: &[u8]) -> (r: Result<Self, KeyError>) {
        match decode_uint_checked(bytes, 8) {
            Ok(v) => {
                proof {
                    lemma_pow256_values();
                    lemma_be_val_bound(bytes@);
                    lemma_be_bytes_be_val(bytes@);
                }
                Ok(v as u64)
            },
            Err(e) => Err(e),
        }
    }

    proof fn lemma_encodable_decodable(&self) {
        lemma_be_bytes_len(*self as nat, 8);
    }

    proof fn lemma_injective(a: &Self, b: &Self) {
        lemma_pow256_values();
        lemma_be_val_be_bytes(*a as nat, 8);
        lemma_be_val_be_bytes(*b as nat, 8);
    }

    proof fn lemma_order(a: &Self, b: &Self) {
        lemma_pow256_values();
        lemma_be_order_iff(*a as nat, *b as nat, 8);
    }
}

impl Key for u128 {
    open spec fn encodable(&self) -> bool {
        true
    }

    open spec fn encoded(&self) -> Seq<u8> {
        be_bytes(*self as nat, 16)
    }

    open spec fn decodable(bytes: Seq<u8>) -> bool {
        bytes.len() == 16
    }

    open spec fn key_lt(&self, other: &Self) -> bool {
        *self < *other
    }

    fn as_big_endian_bytes(&self) -> (r: Result<Vec<u8>, KeyError>) {
        proof {
            lemma_pow256_values();
        }
        Ok(encode_be(*self, 16))
    }

    fn from_big_endian_bytes(bytes: &[u8]) -> (r: Result<Self, KeyError>) {
        match decode_uint_checked(bytes, 16) {
            Ok(v) => {
                proof {
                    lemma_pow256_values();
                    lemma_be_val_bound(bytes@);
                    lemma_be_bytes_be_val(bytes@);
                }
                Ok(v)
            },
            Err(e) => Err(e),
        }
    }

    proof fn lemma_encodable_decodable(&self) {
        lemma_be_bytes_len(*self as nat, 16);
    }

    proof fn lemma_injective(a: &Self, b: &Self) {
        lemma_pow256_values();
        lemma_be_val_be_bytes(*a as nat, 16);
        lemma_be_val_be_bytes(*b as nat, 16);
    }

    proof fn lemma_order(a: &Self, b: &Self) {
        lemma_pow256_values();
        lemma_be_order_iff(*a as nat, *b as nat, 16);
    }
}

impl Key for i8 {
    open spec fn encodable(&self) -> bool {
        true
    }

    open spec fn encoded(&self) -> Seq<u8> {
        be_bytes((*self - i8::MIN) as nat, 1)
    }

    open spec fn decodable(bytes: Seq<u8>) -> bool {
        bytes.len() == 1
    }

    open spec fn key_lt(&self, other: &Self) -> bool {
        *self < *other
    }

    fn as_big_endian_bytes(&self) -> (r: Result<Vec<u8>, KeyError>) {
        let biased: i128 = (*self as i128) - (i8::MIN as i128);
        Ok(encode_be(biased as u128, 1))
    }

    fn from_big_endian_bytes(bytes: &[u8]) -> (r: Result<Self, KeyError>) {
        match decode_uint_checked(bytes, 1) {
            Ok(v) => {
                proof {
                    lemma_pow256_values();
                    lemma_be_val_bound(bytes@);
                    lemma_be_bytes_be_val(bytes@);
                }
                Ok(((v as i128) + (i8::MIN as i128)) as i8)
            },
            Err(e) => Err(e),
        }
    }

    proof fn lemma_encodable_decodable(&self) {
        lemma_be_bytes_len((*self - i8::MIN) as nat, 1);
    }

    proof fn lemma_injective(a: &Self, b: &Self) {
        lemma_pow256_values();
        lemma_be_val_be_bytes((*a - i8::MIN) as nat, 1);
        lemma_be_val_be_bytes((*b - i8::MIN) as nat, 1);
    }

    proof fn lemma_order(a: &Self, b: &Self) {
        lemma_pow256_values();
        lemma_be_order_iff((*a - i8::MIN) as nat, (*b - i8::MIN) as nat, 1);
    }
}

impl Key for i16 {
    open spec fn encodable(&self) -> bool {
        true
    }

    open spec fn encoded(&self) -> Seq<u8> {
        be_bytes((*self - i16::MIN) as nat, 2)
    }

    open spec fn decodable(bytes: Seq<u8>) -> bool {
        bytes.len() == 2
    }

    open spec fn key_lt(&self, other: &Self) -> bool {
        *self < *other
    }

    fn as_big_endian_bytes(&self) -> (r: Result<Vec<u8>, KeyError>) {
        proof {
            lemma_pow256_values();
        }
        let biased: i128 = (*self as i128) - (i16::MIN as i128);
        Ok(encode_be(biased as u128, 2))
    }

    fn from_big_endian_bytes(bytes: &[u8]) -> (r: Result<Self, KeyError>) {
        match decode_uint_checked(bytes, 2) {
            Ok(v) => {
                proof {
                    lemma_pow256_values();
                    lemma_be_val_bound(bytes@);
                    lemma_be_bytes_be_val(bytes@);
                }
                Ok(((v as i128) + (i16::MIN as i128)) as i16)
            },
            Err(e) => Err(e),
        }
    }

    proof fn lemma_encodable_decodable(&self) {
        lemma_be_bytes_len((*self - i16::MIN) as nat, 2);
    }

    proof fn lemma_injective(a: &Self, b: &Self) {
        lemma_pow256_values();
        lemma_be_val_be_bytes((*a - i16::MIN) as nat, 2);
        lemma_be_val_be_bytes((*b - i16::MIN) as nat, 2);
    }

    proof fn lemma_order(a: &Self, b: &Self) {
        lemma_pow256_values();
        lemma_be_order_iff((*a - i16::MIN) as nat, (*b - i16::MIN) as nat, 2);
    }
}

impl Key for i32 {
    open spec fn encodable(&self) -> bool {
        true
    }

    open spec fn encoded(&self) -> Seq<u8> {
        be_bytes((*self - i32::MIN) as nat, 4)
    }

    open spec fn decodable(bytes: Seq<u8>) -> bool {
        bytes.len() == 4
    }

    open spec fn key_lt(&self, other: &Self) -> bool {
        *self < *other
    }

    fn as_big_endian_bytes(&self) -> (r: Result<Vec<u8>, KeyError>) {
        proof {
            lemma_pow256_values();
        }
        let biased: i128 = (*self as i128) - (i32::MIN as i128);
        Ok(encode_be(biased as u128, 4))
    }

    fn from_big_endian_bytes(bytes: &[u8]) -> (r: Result<Self, KeyError>) {
        match decode_uint_checked(bytes, 4) {
            Ok(v) => {
                proof {
                    lemma_pow256_values();
                    lemma_be_val_bound(bytes@);
                    lemma_be_bytes_be_val(bytes@);
                }
                Ok(((v as i128) + (i32::MIN as i128)) as i32)
            },
            Err(e) => Err(e),
        }
    }

    proof fn lemma_encodable_decodable(&self) {
        lemma_be_bytes_len((*self - i32::MIN) as nat, 4);
    }

    proof fn lemma_injective(a: &Self, b: &Self) {
        lemma_pow256_values();
        lemma_be_val_be_bytes((*a - i32::MIN) as nat, 4);
        lemma_be_val_be_bytes((*b - i32::MIN) as nat, 4);
    }

    proof fn lemma_order(a: &Self, b: &Self) {
        lemma_pow256_values();
        lemma_be_order_iff((*a - i32::MIN) as nat, (*b - i32::MIN) as nat, 4);
    }
}

impl Key for i64 {
    open spec fn encodable(&self) -> bool {
        true
    }

    open spec fn encoded(&self) -> Seq<u8> {
        be_bytes((*self - i64::MIN) as nat, 8)
    }

    open spec fn decodable(bytes: Seq<u8>) -> bool {
        bytes.len() == 8
    }

    open spec fn key_lt(&self, other: &Self) -> bool {
        *self < *other
    }

    fn as_big_endian_bytes(&self) -> (r: Result<Vec<u8>, KeyError>) {
        proof {
            lemma_pow256_values();
        }
        let biased: i128 = (*self as i128) - (i64::MIN as i128);
        Ok(encode_be(biased as u128, 8))
    }

    fn from_big_endian_bytes(bytes: &[u8]) -> (r: Result<Self, KeyError>) {
        match decode_uint_checked(bytes, 8) {
            Ok(v) => {
                proof {
                    lemma_pow256_values();
                    lemma_be_val_bound(bytes@);
                    lemma_be_bytes_be_val(bytes@);
                }
                Ok(((v as i128) + (i64::MIN as i128)) as i64)
            },
            Err(e) => Err(e),
        }
    }

    proof fn lemma_encodable_decodable(&self) {
        lemma_be_bytes_len((*self - i64::MIN) as nat, 8);
    }

    proof fn lemma_injective(a: &Self, b: &Self) {
        lemma_pow256_values();
        lemma_be_val_be_bytes((*a - i64::MIN) as nat, 8);
        lemma_be_val_be_bytes((*b - i64::MIN) as nat, 8);
    }

    proof fn lemma_order(a: &Self, b: &Self) {
        lemma_pow256_values();
        lemma_be_order_iff((*a - i64::MIN) as nat, (*b - i64::MIN) as nat, 8);
    }
}

impl Key for i128 {
    open spec fn encodable(&self) -> bool {
        true
    }

    open spec fn encoded(&self) -> Seq<u8> {
        be_bytes((*self - i128::MIN) as nat, 16)
    }

    open spec fn decodable(bytes: Seq<u8>) -> bool {
        bytes.len() == 16
    }

    open spec fn key_lt(&self, other: &Self) -> bool {
        *self < *other
    }

    fn as_big_endian_bytes(&self) -> (r: Result<Vec<u8>, KeyError>) {
        proof {
            lemma_pow256_values();
        }
        let biased: u128 = if *self >= 0 {
            (*self as u128) + 0x80000000000000000000000000000000u128
        } else {
            ((*self + 1) + i128::MAX) as u128
        };
        Ok(encode_be(biased, 16))
    }

    fn from_big_endian_bytes(bytes: &[u8]) -> (r: Result<Self, KeyError>) {
        match decode_uint_checked(bytes, 16) {
            Ok(v) => {
                proof {
                    lemma_pow256_values();
                    lemma_be_val_bound(bytes@);
                    lemma_be_bytes_be_val(bytes@);
                }
                if v >= 0x80000000000000000000000000000000u128 {
                    Ok((v - 0x80000000000000000000000000000000u128) as i128)
                } else {
                    Ok(((v as i128) - i128::MAX) - 1)
                }
            },
            Err(e) => Err(e),
        }
    }

    proof fn lemma_encodable_decodable(&self) {
        lemma_be_bytes_len((*self - i128::MIN) as nat, 16);
    }

    proof fn lemma_injective(a: &Self, b: &Self) {
        lemma_pow256_values();
        lemma_be_val_be_bytes((*a - i128::MIN) as nat, 16);
        lemma_be_val_be_bytes((*b - i128::MIN) as nat, 16);
    }

    proof fn lemma_order(a: &Self, b: &Self) {
        lemma_pow256_values();
        lemma_be_order_iff((*a - i128::MIN) as nat, (*b - i128::MIN) as nat, 16);
    }
}

impl Key for Vec<u8> {
    open spec fn encodable(&self) -> bool {
        true
    }

    open spec fn encoded(&self) -> Seq<u8> {
        self@
    }

    open spec fn decodable(bytes: Seq<u8>) -> bool {
        true
    }

    open spec fn key_lt(&self, other: &Self) -> bool {
        lex_lt(self@, other@)
    }

    fn as_big_endian_bytes(&self) -> (r: Result<Vec<u8>, KeyError>) {
        Ok(vstd::slice::slice_to_vec(self.as_slice()))
    }

    fn from_big_endian_bytes(bytes: &[u8]) -> (r: Result<Self, KeyError>) {
        Ok(vstd::slice::slice_to_vec(bytes))
    }

    proof fn lemma_encodable_decodable(&self) {
    }

    proof fn lemma_injective(a: &Self, b: &Self) {
        assert(a.deep_view() =~= b.deep_view());
    }

    proof fn lemma_order(a: &Self, b: &Self) {
    }
}

/// The error std's `String::from_utf8` reports on bytes that are not
/// valid UTF-8.
#[verifier::external_type_specification]
#[verifier::external_body]
pub struct ExFromUtf8Error(std::string::FromUtf8Error);

/// Relies on `String::from_utf8`: it succeeds exactly on valid UTF-8
/// input and returns the character sequence those bytes encode.
pub assume_specification[ String::from_utf8 ](vec: Vec<u8>) -> (r: Result<
    String,
    std::string::FromUtf8Error,
>)
    ensures
        match r {
            Ok(s) => vstd::utf8::valid_utf8(vec@) && s@ == vstd::utf8::decode_utf8(vec@),
            Err(_) => !vstd::utf8::valid_utf8(vec@),
        },
;

impl Key for String {
    open spec fn encodable(&self) -> bool {
        true
    }

    open spec fn encoded(&self) -> Seq<u8> {
        vstd::utf8::encode_utf8(self@)
    }

    open spec fn decodable(bytes: Seq<u8>) -> bool {
        vstd::utf8::valid_utf8(bytes)
    }

    open spec fn key_lt(&self, other: &Self) -> bool {
        lex_lt(vstd::utf8::encode_utf8(self@), vstd::utf8::encode_utf8(other@))
    }

    fn as_big_endian_bytes(&self) -> (r: Result<Vec<u8>, KeyError>) {
        Ok(vstd::slice::slice_to_vec(self.as_str().as_bytes()))
    }

    fn from_big_endian_bytes(bytes: &[u8]) -> (r: Result<Self, KeyError>) {
        match String::from_utf8(vstd::slice::slice_to_vec(bytes)) {
            Ok(s) => {
                proof {
                    vstd::utf8::decode_utf8_encode_utf8(bytes@);
                }
                Ok(s)
            },
            Err(_) => Err(KeyError { message: "invalid unicode".to_owned() }),
        }
    }

    proof fn lemma_encodable_decodable(&self) {
        vstd::utf8::encode_utf8_valid_utf8(self@);
    }

    proof fn lemma_injective(a: &Self, b: &Self) {
        vstd::utf8::encode_utf8_decode_utf8(a@);
        vstd::utf8::encode_utf8_decode_utf8(b@);
    }

    proof fn lemma_order(a: &Self, b: &Self) {
    }
}

impl Key for () {
    open spec fn encodable(&self) -> bool {
        true
    }

    open spec fn encoded(&self) -> Seq<u8> {
        Seq::empty()
    }

    open spec fn decodable(bytes: Seq<u8>) -> bool {
        bytes.len() == 0
    }

    open spec fn key_lt(&self, other: &Self) -> bool {
        false
    }

    fn as_big_endian_bytes(&self) -> (r: Result<Vec<u8>, KeyError>) {
        Ok(Vec::new())
    }

    fn from_big_endian_bytes(bytes: &[u8]) -> (r: Result<Self, KeyError>) {
        if bytes.len() == 0 {
            proof {
                assert(bytes@ =~= Seq::<u8>::empty());
            }
            Ok(())
        } else {
            Err(KeyError { message: "incorrect byte length".to_owned() })
        }
    }

    proof fn lemma_encodable_decodable(&self) {
    }

    proof fn lemma_injective(a: &Self, b: &Self) {
    }

    proof fn lemma_order(a: &Self, b: &Self) {
    }
}

/// A universally unique identifier held as its sixteen raw bytes,
/// which are also its key encoding.
pub struct Uuid {
    /// The sixteen bytes of the identifier.
    pub bytes: Vec<u8>,
}

impl DeepView for Uuid {
    type V = Seq<u8>;

    open spec fn deep_view(&self) -> Seq<u8> {
        self.bytes@
    }
}

impl Uuid {
    /// A well-formed identifier holds exactly sixteen bytes.
    pub open spec fn wf(&self) -> bool {
        self.bytes@.len() == 16
    }

    /// Wraps sixteen raw bytes as an identifier.
    pub fn from_bytes(bytes: Vec<u8>) -> (r: Result<Uuid, KeyError>)
        ensures
            match r {
                Ok(u) => u.wf() && u.bytes@ == bytes@ && bytes@.len() == 16,
                Err(_) => bytes@.len() != 16,
            },
    {
        if bytes.len() == 16 {
            Ok(Uuid { bytes })
        } else {
            Err(KeyError { message: "incorrect byte length".to_owned() })
        }
    }
}

impl Key for Uuid {
    open spec fn encodable(&self) -> bool {
        self.wf()
    }

    open spec fn encoded(&self) -> Seq<u8> {
        self.bytes@
    }

    open spec fn decodable(bytes: Seq<u8>) -> bool {
        bytes.len() == 16
    }

    open spec fn key_lt(&self, other: &Self) -> bool {
        lex_lt(self.bytes@, other.bytes@)
    }

    fn as_big_endian_bytes(&self) -> (r: Result<Vec<u8>, KeyError>) {
        if self.bytes.len() == 16 {
            Ok(vstd::slice::slice_to_vec(self.bytes.as_slice()))
        } else {
            Err(KeyError { message: "incorrect byte length".to_owned() })
        }
    }

    fn from_big_endian_bytes(bytes: &[u8]) -> (r: Result<Self, KeyError>) {
        if bytes.len() == 16 {
            Ok(Uuid { bytes: vstd::slice::slice_to_vec(bytes) })
        } else {
            Err(KeyError { message: "incorrect byte length".to_owned() })
        }
    }

    proof fn lemma_encodable_decodable(&self) {
    }

    proof fn lemma_injective(a: &Self, b: &Self) {
    }

    proof fn lemma_order(a: &Self, b: &Self) {
    }
}

impl<T: Key> Key for Option<T> {
    open spec fn encodable(&self) -> bool {
        match self {
            None => true,
            Some(x) => x.encodable() && x.encoded().len() > 0,
        }
    }

    open spec fn encoded(&self) -> Seq<u8> {
        match self {
            None => Seq::empty(),
            Some(x) => x.encoded(),
        }
    }

    open spec fn decodable(bytes: Seq<u8>) -> bool {
        bytes.len() == 0 || T::decodable(bytes)
    }

    open spec fn key_lt(&self, other: &Self) -> bool {
        match (self, other) {
            (None, Some(_)) => true,
            (Some(a), Some(b)) => a.key_lt(b),
            _ => false,
        }
    }

    fn as_big_endian_bytes(&self) -> (r: Result<Vec<u8>, KeyError>) {
        match self {
            None => Ok(Vec::new()),
            Some(x) => {
                match x.as_big_endian_bytes() {
                    Ok(contents) => {
                        if contents.len() == 0 {
                            Err(
                                KeyError {
                                    message: "an empty inner encoding cannot be told from absence".to_owned(),
                                },
                            )
                        } else {
                            Ok(contents)
                        }
                    },
                    Err(e) => Err(e),
                }
            },
        }
    }

    fn from_big_endian_bytes(bytes: &[u8]) -> (r: Result<Self, KeyError>) {
        if bytes.len() == 0 {
            proof {
                assert(bytes@ =~= Seq::<u8>::empty());
            }
            Ok(None)
        } else {
            match T::from_big_endian_bytes(bytes) {
                Ok(v) => Ok(Some(v)),
                Err(e) => Err(e),
            }
        }
    }

    proof fn lemma_encodable_decodable(&self) {
        match self {
            None => {
            },
            Some(x) => {
                x.lemma_encodable_decodable();
            },
        }
    }

    proof fn lemma_injective(a: &Self, b: &Self) {
        match (a, b) {
            (Some(x), Some(y)) => {
                T::lemma_injective(x, y);
            },
            _ => {
            },
        }
    }

    proof fn lemma_order(a: &Self, b: &Self) {
        match (a, b) {
            (Some(x), Some(y)) => {
                T::lemma_order(x, y);
            },
            _ => {
            },
        }
    }
}

/// The optional-key discipline: absence encodes to the empty byte
/// string, and a present key encodes as the key itself does, which is
/// accepted only when that encoding is non-empty.
pub proof fn lemma_option_codec<T: Key>(x: Option<T>)
    ensures
        x is None ==> x.encoded() == Seq::<u8>::empty(),
        x matches Some(inner) ==> (x.encodable() ==> x.encoded() == inner.encoded()
            && x.encoded().len() > 0),
{
}

} // verus!
