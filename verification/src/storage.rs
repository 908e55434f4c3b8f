//! A multi-database server: the registry of schemas and the lifecycle
//! of named databases, each holding a document engine and a key-value
//! sidestore.
//!
//! Database names follow the same grammar as schema names and are
//! unique without regard to ASCII case.

use vstd::prelude::*;

verus! {

use vstd::utf8::encode_utf8;
use vstd::string::StringSliceAdditionalSpecFns;
use crate::names::{SchemaName, fold_bytes, valid_name_bytes, validate_name, names_equal_ignore_case};
use crate::engine::{Db, ViewMapper};
use crate::kv::KvStore;
use crate::error::Error;
use crate::connection::Database;

/// A database a server holds: its name, the schema it was created
/// with, its documents and its sidestore.
pub struct StoredDatabase<M> {
    /// The database's name.
    pub name: String,
    /// The schema the database was created with.
    pub schema: SchemaName,
    /// The document engine.
    pub db: Db<M>,
    /// The key-value sidestore.
    pub kv: KvStore,
}

/// A server: the schemas it knows and the databases it holds.
pub struct Storage<M> {
    /// The registered schemas.
    pub schemas: Vec<SchemaName>,
    /// The databases, in creation order.
    pub databases: Vec<StoredDatabase<M>>,
}

/// A name folded for case-insensitive comparison.
pub open spec fn name_key(s: Seq<char>) -> Seq<u8> {
    fold_bytes(encode_utf8(s))
}

/// Where the database with this folded name stands, or `-1`.
pub open spec fn find_db<M>(dbs: Seq<StoredDatabase<M>>, key: Seq<u8>) -> int
    decreases dbs.len(),
{
    if dbs.len() == 0 {
        -1
    } else if name_key(dbs[0].name@) == key {
        0
    } else {
        let rest = find_db(dbs.drop_first(), key);
        if rest < 0 {
            -1
        } else {
            rest + 1
        }
    }
}

/// Where `find_db` points: at the first database of that name, or
/// nowhere exactly when the name is unused.
pub proof fn lemma_find_db<M>(dbs: Seq<StoredDatabase<M>>, key: Seq<u8>)
    ensures
        find_db(dbs, key) == -1 ==> forall|i: int|
            0 <= i < dbs.len() ==> name_key((#[trigger] dbs[i]).name@) != key,
        find_db(dbs, key) >= 0 ==> 0 <= find_db(dbs, key) < dbs.len() && name_key(
            dbs[find_db(dbs, key)].name@,
        ) == key && forall|j: int|
            0 <= j < find_db(dbs, key) ==> name_key((#[trigger] dbs[j]).name@) != key,
    decreases dbs.len(),
{
    if dbs.len() > 0 && name_key(dbs[0].name@) != key {
        lemma_find_db(dbs.drop_first(), key);
        let r = find_db(dbs, key);
        if r == -1 {
            assert forall|i: int| 0 <= i < dbs.len() implies name_key((#[trigger] dbs[i]).name@)
                != key by {
                if i > 0 {
                    assert(dbs.drop_first()[i - 1] == dbs[i]);
                }
            }
        } else {
            assert(dbs.drop_first()[r - 1] == dbs[r]);
            assert forall|j: int| 0 <= j < r implies name_key((#[trigger] dbs[j]).name@) != key by {
                if j > 0 {
                    assert(dbs.drop_first()[j - 1] == dbs[j]);
                }
            }
        }
    }
}

impl<M: ViewMapper> Storage<M> {
    /// Database names are unique ignoring case, and so are schemas.
    pub open spec fn wf(&self) -> bool {
        &&& forall|i: int, j: int|
            0 <= i < j < self.databases@.len() ==> name_key((#[trigger] self.databases@[i]).name@)
                != name_key((#[trigger] self.databases@[j]).name@)
        &&& forall|i: int, j: int|
            0 <= i < j < self.schemas@.len() ==> (#[trigger] self.schemas@[i]).folded() != (
            #[trigger] self.schemas@[j]).folded()
    }

    /// An empty server with no schemas and no databases.
    pub fn new() -> (r: Storage<M>)
        ensures
            r.wf(),
            r.schemas@.len() == 0,
            r.databases@.len() == 0,
    {
        Storage { schemas: Vec::new(), databases: Vec::new() }
    }

    /// Registers a schema; a second spelling of a registered schema's
    /// name is refused.
    pub fn register_schema(&mut self, schema: SchemaName) -> (r: Result<(), Error>)
        requires
            old(self).wf(),
        ensures
            final(self).wf(),
            final(self).databases == old(self).databases,
            match r {
                Ok(_) => final(self).schemas@ == old(self).schemas@.push(schema) && (forall|
                    i: int,
                |
                    0 <= i < old(self).schemas@.len() ==> (#[trigger] old(
                        self,
                    ).schemas@[i]).folded() != schema.folded()),
                Err(e) => *final(self) == *old(self) && e is SchemaAlreadyRegistered && (exists|
                    i: int,
                |
                    0 <= i < old(self).schemas@.len() && (#[trigger] old(
                        self,
                    ).schemas@[i]).folded() == schema.folded()),
            },
    {
        let n = self.schemas.len();
        for i in 0..n
            invariant
                *self == *old(self),
                old(self).wf(),
                n == self.schemas@.len(),
                forall|j: int|
                    0 <= j < i ==> (#[trigger] self.schemas@[j]).folded() != schema.folded(),
        {
            if self.schemas[i].equals_ignore_case(&schema) {
                return Err(Error::SchemaAlreadyRegistered(schema));
            }
        }
        self.schemas.push(schema);
        proof {
            assert(forall|i: int|
                0 <= i < old(self).schemas@.len() ==> self.schemas@[i] == #[trigger] old(
                    self,
                ).schemas@[i]);
        }
        Ok(())
    }

    /// Whether a schema with this name is registered.
    fn schema_registered(&self, schema: &SchemaName) -> (r: bool)
        ensures
            r == exists|i: int|
                0 <= i < self.schemas@.len() && (#[trigger] self.schemas@[i]).folded()
                    == schema.folded(),
    {
        let n = self.schemas.len();
        for i in 0..n
            invariant
                n == self.schemas@.len(),
                forall|j: int|
                    0 <= j < i ==> (#[trigger] self.schemas@[j]).folded() != schema.folded(),
        {
            if self.schemas[i].equals_ignore_case(schema) {
                return true;
            }
        }
        false
    }

    /// Finds the database with this name, compared without regard to
    /// ASCII case.
    fn find_database(&self, name: &str) -> (r: Option<usize>)
        ensures
            match r {
                Some(i) => (i as int) < self.databases@.len() && find_db(
                    self.databases@,
                    name_key(name@),
                ) == i as int,
                None => find_db(self.databases@, name_key(name@)) == -1,
            },
    {
        let n = self.databases.len();
        for i in 0..n
            invariant
                n == self.databases@.len(),
                forall|j: int|
                    0 <= j < i ==> name_key((#[trigger] self.databases@[j]).name@) != name_key(
                        name@,
                    ),
        {
            if names_equal_ignore_case(self.databases[i].name.as_str(), name) {
                proof {
                    lemma_find_db(self.databases@, name_key(name@));
                }
                return Some(i);
            }
        }
        proof {
            lemma_find_db(self.databases@, name_key(name@));
        }
        None
    }

    /// Creates a database named `name` with the schema provided.
    ///
    /// The name must follow the name grammar; the schema must be
    /// registered.  If the name is taken, `only_if_needed` with the
    /// same schema succeeds with no change, `only_if_needed` with a
    /// different schema is a schema mismatch, and without
    /// `only_if_needed` the name is reported as taken.
    pub fn create_database(
        &mut self,
        name: &str,
        schema: &SchemaName,
        mapper: M,
        only_if_needed: bool,
    ) -> (r: Result<(), Error>)
        requires
            old(self).wf(),
        ensures
            final(self).wf(),
            final(self).schemas == old(self).schemas,
            ({
                let at = find_db(old(self).databases@, name_key(name@));
                let registered = exists|i: int|
                    0 <= i < old(self).schemas@.len() && (#[trigger] old(
                        self,
                    ).schemas@[i]).folded() == schema.folded();
                match r {
                    Ok(_) => registered && valid_name_bytes(name.spec_bytes()) && (if at >= 0 {
                        only_if_needed && old(self).databases@[at].schema.folded()
                            == schema.folded() && *final(self) == *old(self)
                    } else {
                        final(self).databases@.len() == old(self).databases@.len() + 1 && final(self).databases@.drop_last() == old(self).databases@ && final(self).databases@.last().name@ == name@ && final(self).databases@.last().schema.folded() == schema.folded() && final(self).databases@.last().db.inv() && final(self).databases@.last().kv.inv()
                    }),
                    Err(e) => *final(self) == *old(self) && ((e is InvalidDatabaseName
                        && !valid_name_bytes(name.spec_bytes())) || (e is SchemaNotRegistered
                        && !registered) || (e is DatabaseNameAlreadyTaken && at >= 0
                        && !only_if_needed) || (e is SchemaMismatch && at >= 0 && only_if_needed
                        && old(self).databases@[at].schema.folded() != schema.folded())),
                }
            }),
    {
        match validate_name(name) {
            Ok(_) => {
            },
            Err(_) => {
                return Err(Error::InvalidDatabaseName(name.to_owned()));
            },
        }
        if !self.schema_registered(schema) {
            return Err(
                Error::SchemaNotRegistered(
                    SchemaName {
                        authority: schema.authority.clone(),
                        name: schema.name.clone(),
                    },
                ),
            );
        }
        if let Some(at) = self.find_database(name) {
            proof {
                lemma_find_db(self.databases@, name_key(name@));
            }
            if !only_if_needed {
                return Err(Error::DatabaseNameAlreadyTaken(name.to_owned()));
            }
            if self.databases[at].schema.equals_ignore_case(schema) {
                return Ok(());
            }
            return Err(
                Error::SchemaMismatch {
                    database_name: name.to_owned(),
                    schema: SchemaName {
                        authority: schema.authority.clone(),
                        name: schema.name.clone(),
                    },
                    stored_schema: SchemaName {
                        authority: self.databases[at].schema.authority.clone(),
                        name: self.databases[at].schema.name.clone(),
                    },
                },
            );
        }
        let stored = StoredDatabase {
            name: name.to_owned(),
            schema: SchemaName { authority: schema.authority.clone(), name: schema.name.clone() },
            db: Db::new(mapper),
            kv: KvStore::new(),
        };
        proof {
            lemma_find_db(self.databases@, name_key(name@));
        }
        self.databases.push(stored);
        proof {
            assert(self.databases@.drop_last() =~= old(self).databases@);
            assert(forall|i: int|
                0 <= i < old(self).databases@.len() ==> self.databases@[i] == #[trigger] old(
                    self,
                ).databases@[i]);
        }
        Ok(())
    }

    /// Hands out the database named `name`, provided it was created
    /// with the schema requested.
    pub fn database(&self, name: &str, schema: &SchemaName) -> (r: Result<&StoredDatabase<M>, Error>)
        ensures
            ({
                let at = find_db(self.databases@, name_key(name@));
                match r {
                    Ok(d) => at >= 0 && *d == self.databases@[at] && d.schema.folded()
                        == schema.folded(),
                    Err(e) => (e is DatabaseNotFound && at == -1) || (e is SchemaMismatch && at
                        >= 0 && self.databases@[at].schema.folded() != schema.folded()),
                }
            }),
    {
        let at = match self.find_database(name) {
            Some(at) => at,
            None => {
                return Err(Error::DatabaseNotFound(name.to_owned()));
            },
        };
        proof {
            lemma_find_db(self.databases@, name_key(name@));
        }
        if !self.databases[at].schema.equals_ignore_case(schema) {
            return Err(
                Error::SchemaMismatch {
                    database_name: name.to_owned(),
                    schema: SchemaName {
                        authority: schema.authority.clone(),
                        name: schema.name.clone(),
                    },
                    stored_schema: SchemaName {
                        authority: self.databases[at].schema.authority.clone(),
                        name: self.databases[at].schema.name.clone(),
                    },
                },
            );
        }
        Ok(&self.databases[at])
    }

    /// Hands out the engine of the database named `name` for writing;
    /// the database keeps its name, schema and sidestore.
    pub fn database_mut(&mut self, name: &str) -> (r: Result<&mut Db<M>, Error>)
        requires
            old(self).wf(),
        ensures
            match r {
                Ok(d) => ({
                    let at = find_db(old(self).databases@, name_key(name@));
                    &&& at >= 0
                    &&& *d == old(self).databases@[at].db
                    &&& final(self).schemas == old(self).schemas
                    &&& final(self).databases@ == old(self).databases@.update(
                        at,
                        (StoredDatabase {
                            name: old(self).databases@[at].name,
                            schema: old(self).databases@[at].schema,
                            db: *final(d),
                            kv: old(self).databases@[at].kv,
                        }),
                    )
                    &&& final(self).wf()
                }),
                Err(e) => *final(self) == *old(self) && e is DatabaseNotFound && find_db(
                    old(self).databases@,
                    name_key(name@),
                ) == -1,
            },
    {
        let at = match self.find_database(name) {
            Some(at) => at,
            None => {
                return Err(Error::DatabaseNotFound(name.to_owned()));
            },
        };
        let stored = &mut self.databases[at];
        Ok(&mut stored.db)
    }

    /// Removes the database named `name`.
    pub fn delete_database(&mut self, name: &str) -> (r: Result<(), Error>)
        requires
            old(self).wf(),
        ensures
            final(self).wf(),
            final(self).schemas == old(self).schemas,
            ({
                let at = find_db(old(self).databases@, name_key(name@));
                match r {
                    Ok(_) => at >= 0 && final(self).databases@ == old(self).databases@.remove(at),
                    Err(e) => *final(self) == *old(self) && e is DatabaseNotFound && at == -1,
                }
            }),
    {
        let at = match self.find_database(name) {
            Some(at) => at,
            None => {
                return Err(Error::DatabaseNotFound(name.to_owned()));
            },
        };
        let ghost before = self.databases@;
        let _removed = self.databases.remove(at);
        proof {
            assert forall|i: int, j: int|
                0 <= i < j < self.databases@.len() implies name_key((
            #[trigger] self.databases@[i]).name@) != name_key((
            #[trigger] self.databases@[j]).name@) by {
                let oi = if i < at as int {
                    i
                } else {
                    i + 1
                };
                let oj = if j < at as int {
                    j
                } else {
                    j + 1
                };
                assert(self.databases@[i] == before[oi]);
                assert(self.databases@[j] == before[oj]);
            }
        }
        Ok(())
    }

    /// Lists the databases this server holds, as name and schema.
    pub fn list_databases(&self) -> (r: Vec<Database>)
        ensures
            r@.len() == self.databases@.len(),
            forall|i: int|
                0 <= i < r@.len() ==> (#[trigger] r@[i]).name@ == self.databases@[i].name@
                    && r@[i].schema.folded() == self.databases@[i].schema.folded(),
    {
        let mut out: Vec<Database> = Vec::new();
        let n = self.databases.len();
        for i in 0..n
            invariant
                n == self.databases@.len(),
                out@.len() == i,
                forall|j: int|
                    0 <= j < i ==> (#[trigger] out@[j]).name@ == self.databases@[j].name@
                        && out@[j].schema.folded() == self.databases@[j].schema.folded(),
        {
            let entry = Database {
                name: self.databases[i].name.clone(),
                schema: SchemaName {
                    authority: self.databases[i].schema.authority.clone(),
                    name: self.databases[i].schema.name.clone(),
                },
            };
            out.push(entry);
        }
        out
    }

    /// Lists the schemas registered with this server.
    pub fn list_available_schemas(&self) -> (r: Vec<SchemaName>)
        ensures
            r@.len() == self.schemas@.len(),
            forall|i: int|
                0 <= i < r@.len() ==> (#[trigger] r@[i]).folded() == self.schemas@[i].folded(),
    {
        let mut out: Vec<SchemaName> = Vec::new();
        let n = self.schemas.len();
        for i in 0..n
            invariant
                n == self.schemas@.len(),
                out@.len() == i,
                forall|j: int|
                    0 <= j < i ==> (#[trigger] out@[j]).folded() == self.schemas@[j].folded(),
        {
            let entry = SchemaName {
                authority: self.schemas[i].authority.clone(),
                name: self.schemas[i].name.clone(),
            };
            out.push(entry);
        }
        out
    }
}

} // verus!
