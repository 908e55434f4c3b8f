//! Typed descriptions of view queries: key filters, ranges, sort
//! order and the freshness policy.
//!
//! Key filters are written over typed keys and carried over the wire
//! with every key already encoded by the key codec, so the byte form
//! and the typed form convert in both directions here.

use vstd::prelude::*;

verus! {

use crate::key::{Key, KeyError};
use crate::error::Error;

/// A sort order.
#[derive(Clone, Copy, Debug, PartialEq, Eq, Structural)]
pub enum Sort {
    /// Sort ascending (A -> Z).
    Ascending,
    /// Sort descending (Z -> A).
    Descending,
}

/// How a view query treats an index that is behind the documents.
#[derive(Clone, Copy, Debug, PartialEq, Eq, Structural)]
pub enum AccessPolicy {
    /// Bring the index up to date with every committed transaction
    /// before answering.
    UpdateBefore,
    /// Answer from the index as it stands, then refresh it.
    UpdateAfter,
    /// Answer from the index as it stands and leave it alone.
    NoUpdate,
}

/// One end of a range: absent, inclusive or exclusive.
#[derive(Clone, Copy, Debug, PartialEq, Eq, Structural)]
pub enum Bound<T> {
    /// No bound.
    Unbounded,
    /// Bounded by the contained value (inclusive).
    Included(T),
    /// Bounded by the contained value (exclusive).
    Excluded(T),
}

/// A range of keys with an independent bound at each end.
#[derive(Clone, Copy, Debug, PartialEq, Eq, Structural)]
pub struct Range<T> {
    /// The start of the range.
    pub start: Bound<T>,
    /// The end of the range.
    pub end: Bound<T>,
}

/// Filters a view query by key.
#[derive(Clone, Debug, PartialEq, Eq, Structural)]
pub enum QueryKey<K> {
    /// Matches all entries with the key provided.
    Matches(K),
    /// Matches all entries with keys in the range provided.
    Range(Range<K>),
    /// Matches all entries whose key is one of those provided.
    Multiple(Vec<K>),
}

/// Whether a bound's key, if any, has an encoding.
pub open spec fn bound_encodable<K: Key>(b: Bound<K>) -> bool {
    match b {
        Bound::Unbounded => true,
        Bound::Included(k) => k.encodable(),
        Bound::Excluded(k) => k.encodable(),
    }
}

/// The encoded bound `e` is the typed bound `b` with its key run
/// through the key codec.
pub open spec fn bound_encoded<K: Key>(b: Bound<K>, e: Bound<Vec<u8>>) -> bool {
    match (b, e) {
        (Bound::Unbounded, Bound::Unbounded) => true,
        (Bound::Included(k), Bound::Included(v)) => k.encodable() && v@ == k.encoded(),
        (Bound::Excluded(k), Bound::Excluded(v)) => k.encodable() && v@ == k.encoded(),
        _ => false,
    }
}

/// Whether the bytes of a bound, if any, decode as keys of type `K`.
pub open spec fn bound_decodable<K: Key>(e: Bound<Vec<u8>>) -> bool {
    match e {
        Bound::Unbounded => true,
        Bound::Included(v) => K::decodable(v@),
        Bound::Excluded(v) => K::decodable(v@),
    }
}

/// Whether every key of the filter has an encoding.
pub open spec fn query_key_encodable<K: Key>(q: QueryKey<K>) -> bool {
    match q {
        QueryKey::Matches(k) => k.encodable(),
        QueryKey::Range(r) => bound_encodable(r.start) && bound_encodable(r.end),
        QueryKey::Multiple(ks) => forall|i: int|
            0 <= i < ks@.len() ==> (#[trigger] ks@[i]).encodable(),
    }
}

/// The encoded filter `e` is the typed filter `q` with every key run
/// through the key codec.
pub open spec fn query_key_encoded<K: Key>(q: QueryKey<K>, e: QueryKey<Vec<u8>>) -> bool {
    match (q, e) {
        (QueryKey::Matches(k), QueryKey::Matches(v)) => k.encodable() && v@ == k.encoded(),
        (QueryKey::Range(r), QueryKey::Range(s)) => bound_encoded(r.start, s.start)
            && bound_encoded(r.end, s.end),
        (QueryKey::Multiple(ks), QueryKey::Multiple(vs)) => ks@.len() == vs@.len() && forall|
            i: int,
        |
            0 <= i < ks@.len() ==> (#[trigger] ks@[i]).encodable() && vs@[i]@ == ks@[i].encoded(),
        _ => false,
    }
}

/// Whether every byte string of the encoded filter decodes as a key
/// of type `K`.
pub open spec fn query_key_decodable<K: Key>(e: QueryKey<Vec<u8>>) -> bool {
    match e {
        QueryKey::Matches(v) => K::decodable(v@),
        QueryKey::Range(s) => bound_decodable::<K>(s.start) && bound_decodable::<K>(s.end),
        QueryKey::Multiple(vs) => forall|i: int|
            0 <= i < vs@.len() ==> K::decodable((#[trigger] vs@[i])@),
    }
}

impl<T> Bound<T> {
    /// Maps the contained value, if any, and returns the resulting bound.
    pub fn map<U, F: Fn(T) -> U>(self, map: F) -> (r: Bound<U>)
        requires
            forall|t: T| map.requires((t,)),
        ensures
            self is Unbounded <==> r is Unbounded,
            self matches Bound::Included(t) ==> (r matches Bound::Included(u) && map.ensures(
                (t,),
                u,
            )),
            self matches Bound::Excluded(t) ==> (r matches Bound::Excluded(u) && map.ensures(
                (t,),
                u,
            )),
    {
        match self {
            Bound::Unbounded => Bound::Unbounded,
            Bound::Included(value) => Bound::Included(map(value)),
            Bound::Excluded(value) => Bound::Excluded(map(value)),
        }
    }
}

impl<T> Range<T> {
    /// Maps each contained value with the function provided.
    pub fn map<U, F: Fn(T) -> U>(self, map: F) -> (r: Range<U>)
        requires
            forall|t: T| map.requires((t,)),
        ensures
            self.start is Unbounded <==> r.start is Unbounded,
            self.end is Unbounded <==> r.end is Unbounded,
            self.start matches Bound::Included(t) ==> (r.start matches Bound::Included(u)
                && map.ensures((t,), u)),
            self.start matches Bound::Excluded(t) ==> (r.start matches Bound::Excluded(u)
                && map.ensures((t,), u)),
            self.end matches Bound::Included(t) ==> (r.end matches Bound::Included(u)
                && map.ensures((t,), u)),
            self.end matches Bound::Excluded(t) ==> (r.end matches Bound::Excluded(u)
                && map.ensures((t,), u)),
    {
        let start = match self.start {
            Bound::Unbounded => Bound::Unbounded,
            Bound::Included(value) => Bound::Included(map(value)),
            Bound::Excluded(value) => Bound::Excluded(map(value)),
        };
        let end = match self.end {
            Bound::Unbounded => Bound::Unbounded,
            Bound::Included(value) => Bound::Included(map(value)),
            Bound::Excluded(value) => Bound::Excluded(map(value)),
        };
        Range { start, end }
    }
}

impl<T> Bound<T> {
    /// Maps the contained value, if any, as a reference.
    pub fn map_ref<'a, U, F: Fn(&'a T) -> &'a U>(&'a self, map: F) -> (r: Bound<&'a U>)
        requires
            forall|t: &'a T| map.requires((t,)),
        ensures
            *self is Unbounded <==> r is Unbounded,
            *self matches Bound::Included(t) ==> (r matches Bound::Included(u) && map.ensures(
                (&t,),
                u,
            )),
            *self matches Bound::Excluded(t) ==> (r matches Bound::Excluded(u) && map.ensures(
                (&t,),
                u,
            )),
    {
        match self {
            Bound::Unbounded => Bound::Unbounded,
            Bound::Included(value) => Bound::Included(map(value)),
            Bound::Excluded(value) => Bound::Excluded(map(value)),
        }
    }
}

impl<T> Range<T> {
    /// Maps each contained value as a reference.
    pub fn map_ref<'a, U, F: Fn(&'a T) -> &'a U>(&'a self, map: F) -> (r: Range<&'a U>)
        requires
            forall|t: &'a T| map.requires((t,)),
        ensures
            self.start is Unbounded <==> r.start is Unbounded,
            self.end is Unbounded <==> r.end is Unbounded,
            self.start matches Bound::Included(t) ==> (r.start matches Bound::Included(u)
                && map.ensures((&t,), u)),
            self.start matches Bound::Excluded(t) ==> (r.start matches Bound::Excluded(u)
                && map.ensures((&t,), u)),
            self.end matches Bound::Included(t) ==> (r.end matches Bound::Included(u)
                && map.ensures((&t,), u)),
            self.end matches Bound::Excluded(t) ==> (r.end matches Bound::Excluded(u)
                && map.ensures((&t,), u)),
    {
        let start = match &self.start {
            Bound::Unbounded => Bound::Unbounded,
            Bound::Included(value) => Bound::Included(map(value)),
            Bound::Excluded(value) => Bound::Excluded(map(value)),
        };
        let end = match &self.end {
            Bound::Unbounded => Bound::Unbounded,
            Bound::Included(value) => Bound::Included(map(value)),
            Bound::Excluded(value) => Bound::Excluded(map(value)),
        };
        Range { start, end }
    }
}


impl<T> From<core::ops::Range<T>> for Range<T> {
    /// A half-open range: inclusive start, exclusive end.
    fn from(range: core::ops::Range<T>) -> (r: Range<T>) {
        Range { start: Bound::Included(range.start), end: Bound::Excluded(range.end) }
    }
}

impl<T> vstd::std_specs::convert::FromSpecImpl<core::ops::Range<T>> for Range<T> {
    open spec fn obeys_from_spec() -> bool {
        true
    }

    open spec fn from_spec(range: core::ops::Range<T>) -> Range<T> {
        Range { start: Bound::Included(range.start), end: Bound::Excluded(range.end) }
    }
}


/// A range bounded only from below, as std writes it.
#[verifier::external_type_specification]
#[verifier::reject_recursive_types(T)]
pub struct ExRangeFrom<T>(core::ops::RangeFrom<T>);

/// A range bounded only from above, exclusively, as std writes it.
#[verifier::external_type_specification]
#[verifier::reject_recursive_types(T)]
pub struct ExRangeTo<T>(core::ops::RangeTo<T>);

/// A range bounded only from above, inclusively, as std writes it.
#[verifier::external_type_specification]
#[verifier::reject_recursive_types(T)]
pub struct ExRangeToInclusive<T>(core::ops::RangeToInclusive<T>);

/// The unbounded range, as std writes it.
#[verifier::external_type_specification]
pub struct ExRangeFull(core::ops::RangeFull);

impl<T> From<core::ops::RangeFrom<T>> for Range<T> {
    /// Inclusive start, no end.
    fn from(range: core::ops::RangeFrom<T>) -> (r: Range<T>) {
        Range { start: Bound::Included(range.start), end: Bound::Unbounded }
    }
}

impl<T> vstd::std_specs::convert::FromSpecImpl<core::ops::RangeFrom<T>> for Range<T> {
    open spec fn obeys_from_spec() -> bool {
        true
    }

    open spec fn from_spec(range: core::ops::RangeFrom<T>) -> Range<T> {
        Range { start: Bound::Included(range.start), end: Bound::Unbounded }
    }
}

impl<T> From<core::ops::RangeTo<T>> for Range<T> {
    /// No start, exclusive end.
    fn from(range: core::ops::RangeTo<T>) -> (r: Range<T>) {
        Range { start: Bound::Unbounded, end: Bound::Excluded(range.end) }
    }
}

impl<T> vstd::std_specs::convert::FromSpecImpl<core::ops::RangeTo<T>> for Range<T> {
    open spec fn obeys_from_spec() -> bool {
        true
    }

    open spec fn from_spec(range: core::ops::RangeTo<T>) -> Range<T> {
        Range { start: Bound::Unbounded, end: Bound::Excluded(range.end) }
    }
}

impl<T> From<core::ops::RangeToInclusive<T>> for Range<T> {
    /// No start, inclusive end.
    fn from(range: core::ops::RangeToInclusive<T>) -> (r: Range<T>) {
        Range { start: Bound::Unbounded, end: Bound::Included(range.end) }
    }
}

impl<T> vstd::std_specs::convert::FromSpecImpl<core::ops::RangeToInclusive<T>> for Range<T> {
    open spec fn obeys_from_spec() -> bool {
        true
    }

    open spec fn from_spec(range: core::ops::RangeToInclusive<T>) -> Range<T> {
        Range { start: Bound::Unbounded, end: Bound::Included(range.end) }
    }
}

impl<T> From<core::ops::RangeFull> for Range<T> {
    /// No bound at either end.
    fn from(_range: core::ops::RangeFull) -> (r: Range<T>) {
        Range { start: Bound::Unbounded, end: Bound::Unbounded }
    }
}

impl<T> vstd::std_specs::convert::FromSpecImpl<core::ops::RangeFull> for Range<T> {
    open spec fn obeys_from_spec() -> bool {
        true
    }

    open spec fn from_spec(_range: core::ops::RangeFull) -> Range<T> {
        Range { start: Bound::Unbounded, end: Bound::Unbounded }
    }
}

impl<K: Key> Bound<K> {
    /// Serializes the contained key, if any, to big-endian bytes.
    pub fn as_big_endian_bytes(&self) -> (r: Result<Bound<Vec<u8>>, KeyError>)
        ensures
            match r {
                Ok(e) => bound_encoded(*self, e),
                Err(_) => !bound_encodable(*self),
            },
    {
        match self {
            Bound::Unbounded => Ok(Bound::Unbounded),
            Bound::Included(key) => {
                match key.as_big_endian_bytes() {
                    Ok(bytes) => Ok(Bound::Included(bytes)),
                    Err(e) => Err(e),
                }
            },
            Bound::Excluded(key) => {
                match key.as_big_endian_bytes() {
                    Ok(bytes) => Ok(Bound::Excluded(bytes)),
                    Err(e) => Err(e),
                }
            },
        }
    }
}

impl Bound<Vec<u8>> {
    /// Deserializes the bound's contained key from big-endian bytes.
    pub fn deserialize<K: Key>(&self) -> (r: Result<Bound<K>, KeyError>)
        ensures
            match r {
                Ok(b) => bound_encoded(b, *self),
                Err(_) => !bound_decodable::<K>(*self),
            },
    {
        match self {
            Bound::Unbounded => Ok(Bound::Unbounded),
            Bound::Included(bytes) => {
                match K::from_big_endian_bytes(bytes.as_slice()) {
                    Ok(key) => {
                        proof {
                            assert(bytes@ =~= key.encoded());
                        }
                        Ok(Bound::Included(key))
                    },
                    Err(e) => Err(e),
                }
            },
            Bound::Excluded(bytes) => {
                match K::from_big_endian_bytes(bytes.as_slice()) {
                    Ok(key) => {
                        proof {
                            assert(bytes@ =~= key.encoded());
                        }
                        Ok(Bound::Excluded(key))
                    },
                    Err(e) => Err(e),
                }
            },
        }
    }
}

impl<K: Key> Range<K> {
    /// Serializes the range's contained keys to big-endian bytes.
    pub fn as_big_endian_bytes(&self) -> (r: Result<Range<Vec<u8>>, KeyError>)
        ensures
            match r {
                Ok(e) => bound_encoded(self.start, e.start) && bound_encoded(self.end, e.end),
                Err(_) => !(bound_encodable(self.start) && bound_encodable(self.end)),
            },
    {
        let start = match self.start.as_big_endian_bytes() {
            Ok(b) => b,
            Err(e) => {
                return Err(e);
            },
        };
        let end = match self.end.as_big_endian_bytes() {
            Ok(b) => b,
            Err(e) => {
                return Err(e);
            },
        };
        Ok(Range { start, end })
    }
}

impl Range<Vec<u8>> {
    /// Deserializes the range's contained keys from big-endian bytes.
    pub fn deserialize<K: Key>(&self) -> (r: Result<Range<K>, KeyError>)
        ensures
            match r {
                Ok(t) => bound_encoded(t.start, self.start) && bound_encoded(t.end, self.end),
                Err(_) => !(bound_decodable::<K>(self.start) && bound_decodable::<K>(self.end)),
            },
    {
        let start = match self.start.deserialize() {
            Ok(b) => b,
            Err(e) => {
                return Err(e);
            },
        };
        let end = match self.end.deserialize() {
            Ok(b) => b,
            Err(e) => {
                return Err(e);
            },
        };
        Ok(Range { start, end })
    }
}

impl<K: Key> QueryKey<K> {
    /// Converts this filter to its serialized form using the key codec.
    #[verifier::loop_isolation(false)]
    pub fn serialized(&self) -> (r: Result<QueryKey<Vec<u8>>, Error>)
        ensures
            match r {
                Ok(e) => query_key_encoded(*self, e),
                Err(e) => !query_key_encodable(*self) && e is Database,
            },
    {
        match self {
            QueryKey::Matches(key) => {
                match key.as_big_endian_bytes() {
                    Ok(bytes) => Ok(QueryKey::Matches(bytes)),
                    Err(e) => Err(Error::Database(e.message)),
                }
            },
            QueryKey::Range(range) => {
                match range.as_big_endian_bytes() {
                    Ok(encoded) => Ok(QueryKey::Range(encoded)),
                    Err(e) => Err(Error::Database(e.message)),
                }
            },
            QueryKey::Multiple(keys) => {
                let mut encoded: Vec<Vec<u8>> = Vec::new();
                let n = keys.len();
                for i in 0..n
                    invariant
                        n == keys@.len(),
                        encoded@.len() == i,
                        forall|j: int|
                            0 <= j < i ==> (#[trigger] keys@[j]).encodable() && encoded@[j]@
                                == keys@[j].encoded(),
                {
                    match keys[i].as_big_endian_bytes() {
                        Ok(bytes) => {
                            encoded.push(bytes);
                        },
                        Err(e) => {
                            proof {
                                assert(!(keys@[i as int]).encodable());
                            }
                            return Err(Error::Database(e.message));
                        },
                    }
                }
                Ok(QueryKey::Multiple(encoded))
            },
        }
    }
}

impl QueryKey<Vec<u8>> {
    /// Deserializes the filter's byte strings back into typed keys.
    #[verifier::loop_isolation(false)]
    pub fn deserialized<K: Key>(&self) -> (r: Result<QueryKey<K>, Error>)
        ensures
            match r {
                Ok(q) => query_key_encoded(q, *self),
                Err(e) => !query_key_decodable::<K>(*self) && e is Database,
            },
    {
        match self {
            QueryKey::Matches(bytes) => {
                match K::from_big_endian_bytes(bytes.as_slice()) {
                    Ok(key) => {
                        proof {
                            assert(bytes@ =~= key.encoded());
                        }
                        Ok(QueryKey::Matches(key))
                    },
                    Err(e) => Err(Error::Database(e.message)),
                }
            },
            QueryKey::Range(range) => {
                match range.deserialize() {
                    Ok(decoded) => Ok(QueryKey::Range(decoded)),
                    Err(e) => Err(Error::Database(e.message)),
                }
            },
            QueryKey::Multiple(entries) => {
                let mut keys: Vec<K> = Vec::new();
                let n = entries.len();
                for i in 0..n
                    invariant
                        n == entries@.len(),
                        keys@.len() == i,
                        forall|j: int|
                            0 <= j < i ==> (#[trigger] keys@[j]).encodable() && entries@[j]@
                                == keys@[j].encoded(),
                {
                    match K::from_big_endian_bytes(entries[i].as_slice()) {
                        Ok(key) => {
                            keys.push(key);
                        },
                        Err(e) => {
                            proof {
                                assert(!K::decodable(entries@[i as int]@));
                            }
                            return Err(Error::Database(e.message));
                        },
                    }
                }
                Ok(QueryKey::Multiple(keys))
            },
        }
    }
}

} // verus!
