//! A view's entries: what a document contributes to an index.
//!
//! A view maps each document to zero or more key/value pairs.  An
//! entry travels either typed, with its key as the view's key type,
//! or serialized, with key and value as plain bytes ready to store.

use vstd::prelude::*;

verus! {

use crate::key::{Key, KeyError};
use crate::document::Document;

/// An error from mapping or converting view entries.
#[derive(Debug)]
pub enum ViewError {
    /// A key could not be encoded or decoded.
    KeySerialization(KeyError),
}

/// A document's entry in a view's mappings, with a typed key.
#[derive(Debug)]
pub struct MapEntry<K, V> {
    /// The id of the document that emitted this entry.
    pub source: u64,
    /// The key under which the view indexes the document.
    pub key: K,
    /// The value stored with the key.
    pub value: V,
}

impl<K: Key, V> MapEntry<K, V> {
    /// Creates an entry for the document with id `source`.
    pub fn new(source: u64, key: K, value: V) -> (r: MapEntry<K, V>)
        ensures
            r.source == source,
            r.key == key,
            r.value == value,
    {
        MapEntry { source, key, value }
    }
}

/// A document's entry in a view's mappings, serialized and ready to
/// store.
#[derive(Debug, Clone)]
pub struct Serialized {
    /// The id of the document that emitted this entry.
    pub source: u64,
    /// The encoded key.
    pub key: Vec<u8>,
    /// The stored value bytes.
    pub value: Vec<u8>,
}

impl<K: Key> MapEntry<K, Vec<u8>> {
    /// Encodes the entry's key, yielding the storable form.
    pub fn serialized(&self) -> (r: Result<Serialized, ViewError>)
        ensures
            match r {
                Ok(s) => self.key.encodable() && s.source == self.source && s.key@
                    == self.key.encoded() && s.value@ == self.value@,
                Err(_) => !self.key.encodable(),
            },
    {
        match self.key.as_big_endian_bytes() {
            Ok(key) => Ok(
                Serialized {
                    source: self.source,
                    key,
                    value: vstd::slice::slice_to_vec(self.value.as_slice()),
                },
            ),
            Err(e) => Err(ViewError::KeySerialization(e)),
        }
    }
}

impl Serialized {
    /// Decodes the entry's key, yielding the typed form.
    pub fn deserialized<K: Key>(&self) -> (r: Result<MapEntry<K, Vec<u8>>, ViewError>)
        ensures
            match r {
                Ok(m) => K::decodable(self.key@) && m.source == self.source && m.key.encodable()
                    && m.key.encoded() == self.key@ && m.value@ == self.value@,
                Err(_) => !K::decodable(self.key@),
            },
    {
        match K::from_big_endian_bytes(self.key.as_slice()) {
            Ok(key) => Ok(
                MapEntry {
                    source: self.source,
                    key,
                    value: vstd::slice::slice_to_vec(self.value.as_slice()),
                },
            ),
            Err(e) => Err(ViewError::KeySerialization(e)),
        }
    }
}

/// A key/value pair produced by reducing a view's entries by key.
#[derive(Debug)]
pub struct MappedValue<K, V> {
    /// The key responsible for generating the value.
    pub key: K,
    /// The reduced value for that key.
    pub value: V,
}

/// A view entry joined with the document that emitted it.
#[derive(Debug)]
pub struct MappedDocument<K, V> {
    /// The document that emitted this entry.
    pub document: Document,
    /// The key under which the view indexes the document.
    pub key: K,
    /// The value stored with the key.
    pub value: V,
}

} // verus!
