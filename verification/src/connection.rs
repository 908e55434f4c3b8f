//! The connection surface: fluent builders for listing documents and
//! querying views, and the value types a multi-database server
//! exchanges with its callers.
//!
//! A builder carries a borrowed connection plus plain configuration;
//! a terminal call hands both to whatever backend the connection is.

use vstd::prelude::*;

verus! {

use core::marker::PhantomData;
use crate::query::{QueryKey, Range, Sort, AccessPolicy, query_key_encoded, query_key_encodable};
use crate::names::SchemaName;
use crate::key::Key;
use crate::engine::{Db, ViewMapper};
use crate::error::Error;
use crate::view::Serialized;
use crate::index::{entries_model, sort_entries, view_entries};

/// Interacts with a collection of documents over a connection.
pub struct Collection<'a, Cn, Cl> {
    /// The connection the collection is reached through.
    pub connection: &'a Cn,
    /// Marks the collection type the operations are about.
    pub collection_marker: PhantomData<Cl>,
}

impl<'a, Cn, Cl> Collection<'a, Cn, Cl> {
    /// Creates a new instance using `connection`.
    pub fn new(connection: &'a Cn) -> (r: Self)
        ensures
            r.connection == connection,
    {
        Collection { connection, collection_marker: PhantomData }
    }

    /// Starts listing the documents whose ids fall in `ids`.
    pub fn list(&self, ids: Range<u64>) -> (r: List<'a, Cn, Cl>)
        ensures
            r.connection == self.connection,
            r.range == ids,
            r.sort is Ascending,
            r.limit is None,
    {
        List {
            connection: self.connection,
            collection_marker: PhantomData,
            range: ids,
            sort: Sort::Ascending,
            limit: None,
        }
    }
}

/// A pending list of documents: the id range to walk, the order, and
/// the cap, waiting for a backend to run it.
pub struct List<'a, Cn, Cl> {
    /// The connection the list will run on.
    pub connection: &'a Cn,
    /// Marks the collection type the list is about.
    pub collection_marker: PhantomData<Cl>,
    /// The ids to list.
    pub range: Range<u64>,
    /// The order to walk them in.
    pub sort: Sort,
    /// The most documents to return.
    pub limit: Option<usize>,
}

impl<'a, Cn, Cl> List<'a, Cn, Cl> {
    /// Lists documents by ascending id.
    pub fn ascending(self) -> (r: Self)
        ensures
            r.sort is Ascending,
            r.connection == self.connection,
            r.range == self.range,
            r.limit == self.limit,
    {
        List { sort: Sort::Ascending, ..self }
    }

    /// Lists documents by descending id.
    pub fn descending(self) -> (r: Self)
        ensures
            r.sort is Descending,
            r.connection == self.connection,
            r.range == self.range,
            r.limit == self.limit,
    {
        List { sort: Sort::Descending, ..self }
    }

    /// Caps how many documents come back.
    pub fn limit(self, maximum_results: usize) -> (r: Self)
        ensures
            r.limit == Some(maximum_results),
            r.connection == self.connection,
            r.range == self.range,
            r.sort == self.sort,
    {
        List { limit: Some(maximum_results), ..self }
    }
}

/// Parameters to query a view: the key filter, the freshness policy,
/// the order and the cap.
pub struct ViewQuery<'a, Cn, K> {
    /// The connection the query will run on.
    pub connection: &'a Cn,
    /// Key filtering criteria.
    pub key: Option<QueryKey<K>>,
    /// The view's data access policy.
    pub access_policy: AccessPolicy,
    /// The sort order of the query.
    pub sort: Sort,
    /// The maximum number of results to return.
    pub limit: Option<usize>,
}

impl<'a, Cn, K> ViewQuery<'a, Cn, K> {
    /// Starts a query with no filter, fresh data, ascending order and
    /// no cap.
    pub fn new(connection: &'a Cn) -> (r: Self)
        ensures
            r.connection == connection,
            r.key is None,
            r.access_policy is UpdateBefore,
            r.sort is Ascending,
            r.limit is None,
    {
        ViewQuery {
            connection,
            key: None,
            access_policy: AccessPolicy::UpdateBefore,
            sort: Sort::Ascending,
            limit: None,
        }
    }

    /// Filters for entries with exactly this key.
    pub fn with_key(self, key: K) -> (r: Self)
        ensures
            r.key == Some(QueryKey::Matches(key)),
            r.connection == self.connection,
            r.access_policy == self.access_policy,
            r.sort == self.sort,
            r.limit == self.limit,
    {
        ViewQuery { key: Some(QueryKey::Matches(key)), ..self }
    }

    /// Filters for entries whose key is one of `keys`.
    pub fn with_keys(self, keys: Vec<K>) -> (r: Self)
        ensures
            r.key == Some(QueryKey::Multiple(keys)),
            r.connection == self.connection,
            r.access_policy == self.access_policy,
            r.sort == self.sort,
            r.limit == self.limit,
    {
        ViewQuery { key: Some(QueryKey::Multiple(keys)), ..self }
    }

    /// Filters for entries whose key falls in `range`.
    pub fn with_key_range(self, range: Range<K>) -> (r: Self)
        ensures
            r.key == Some(QueryKey::Range(range)),
            r.connection == self.connection,
            r.access_policy == self.access_policy,
            r.sort == self.sort,
            r.limit == self.limit,
    {
        ViewQuery { key: Some(QueryKey::Range(range)), ..self }
    }

    /// Sets the access policy for the query.
    pub fn with_access_policy(self, policy: AccessPolicy) -> (r: Self)
        ensures
            r.access_policy == policy,
            r.connection == self.connection,
            r.key == self.key,
            r.sort == self.sort,
            r.limit == self.limit,
    {
        ViewQuery { access_policy: policy, ..self }
    }

    /// Queries the view in ascending key order.
    pub fn ascending(self) -> (r: Self)
        ensures
            r.sort is Ascending,
            r.connection == self.connection,
            r.key == self.key,
            r.access_policy == self.access_policy,
            r.limit == self.limit,
    {
        ViewQuery { sort: Sort::Ascending, ..self }
    }

    /// Queries the view in descending key order.
    pub fn descending(self) -> (r: Self)
        ensures
            r.sort is Descending,
            r.connection == self.connection,
            r.key == self.key,
            r.access_policy == self.access_policy,
            r.limit == self.limit,
    {
        ViewQuery { sort: Sort::Descending, ..self }
    }

    /// Caps how many entries come back.
    pub fn limit(self, maximum_results: usize) -> (r: Self)
        ensures
            r.limit == Some(maximum_results),
            r.connection == self.connection,
            r.key == self.key,
            r.access_policy == self.access_policy,
            r.sort == self.sort,
    {
        ViewQuery { limit: Some(maximum_results), ..self }
    }
}


/// The encoded filter `e` is the typed filter with every key run
/// through the key codec, absence kept.
pub open spec fn filter_encoded<K: Key>(
    typed: Option<QueryKey<K>>,
    e: Option<QueryKey<Vec<u8>>>,
) -> bool {
    match (typed, e) {
        (None, None) => true,
        (Some(q), Some(eq)) => query_key_encoded(q, eq),
        _ => false,
    }
}

/// Whether every key of the filter, if any, has an encoding.
pub open spec fn filter_encodable<K: Key>(typed: Option<QueryKey<K>>) -> bool {
    match typed {
        None => true,
        Some(q) => query_key_encodable(q),
    }
}

impl<'a, M: ViewMapper, K: Key> ViewQuery<'a, Db<M>, K> {
    /// Runs the query against the local engine: encodes the typed
    /// filter and serves the view's matching entries in the
    /// configured order, up to the configured cap.
    pub fn query(self, view: usize) -> (r: Result<Vec<Serialized>, Error>)
        requires
            self.connection.inv(),
        ensures
            r matches Err(e) ==> e is Database,
            !filter_encodable(self.key) ==> r is Err,
            filter_encodable(self.key) && (view as int) >= self.connection.views@.len() ==> r
                is Err,
            filter_encodable(self.key) && (view as int) < self.connection.views@.len() ==> (exists|
                e: Option<QueryKey<Vec<u8>>>,
            |
                #[trigger] filter_encoded(self.key, e) && (match r {
                    Ok(es) => ({
                        let ci = self.connection.views@[view as int].collection as int;
                        let sorted = sort_entries(
                            view_entries(
                                self.connection.mapper,
                                view as int,
                                self.connection.cols_model()[ci].docs,
                                e,
                            ),
                        );
                        let ordered = if self.sort is Ascending {
                            sorted
                        } else {
                            sorted.reverse()
                        };
                        let capped = match self.limit {
                            Some(l) => if l < ordered.len() {
                                ordered.take(l as int)
                            } else {
                                ordered
                            },
                            None => ordered,
                        };
                        entries_model(es@) == capped
                    }),
                    Err(_) => false,
                })),
    {
        let encoded: Option<QueryKey<Vec<u8>>> = match &self.key {
            None => None,
            Some(filter) => {
                match filter.serialized() {
                    Ok(e) => Some(e),
                    Err(err) => {
                        return Err(err);
                    },
                }
            },
        };
        proof {
            assert(filter_encoded(self.key, encoded));
        }
        self.connection.query(view, encoded, self.sort, self.limit, self.access_policy)
    }
}

/// A database a server holds: its name and the schema it was created
/// with.
#[derive(Debug, Clone)]
pub struct Database {
    /// The name of the database.
    pub name: String,
    /// The schema defining the database.
    pub schema: SchemaName,
}

/// The effective rights of an authenticated caller.
#[derive(Debug, Clone)]
pub struct Permissions {
    /// The statements granted, one readable label each.
    pub allowed: Vec<String>,
}

/// A plain-text password on its way to an authentication exchange.
#[derive(Clone)]
pub struct SensitiveString(pub String);

/// User authentication methods.
#[derive(Clone)]
pub enum Authentication {
    /// Authenticate using a password.
    Password(SensitiveString),
}

/// Information about an authenticated session.
#[derive(Clone)]
pub struct Authenticated {
    /// The user id logged in as.
    pub user_id: u64,
    /// The effective permissions granted.
    pub permissions: Permissions,
}

} // verus!
