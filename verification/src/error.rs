//! The errors this crate reports.

use vstd::prelude::*;

verus! {

use crate::names::{CollectionName, SchemaName, ViewName, InvalidNameError};
use crate::key::KeyError;

/// Everything that can go wrong while using a database.
#[derive(Debug)]
pub enum Error {
    /// The named database was created with a different schema than the
    /// one provided when opening it.
    SchemaMismatch {
        /// The name of the database being accessed.
        database_name: String,
        /// The schema provided for the database.
        schema: SchemaName,
        /// The schema stored for the database.
        stored_schema: SchemaName,
    },
    /// The schema has already been registered.
    SchemaAlreadyRegistered(SchemaName),
    /// The schema requested was never registered.
    SchemaNotRegistered(SchemaName),
    /// An invalid database name was specified.
    InvalidDatabaseName(String),
    /// The database name given was not found.
    DatabaseNotFound(String),
    /// The database name already exists.
    DatabaseNameAlreadyTaken(String),
    /// An error from interacting with local storage.
    Database(String),
    /// An error from interacting with a server.
    Server(String),
    /// An error from the transport layer.
    Transport(String),
    /// An input/output error.
    Io(String),
    /// An error in the provided configuration options.
    Configuration(String),
    /// An error inside of the client.
    Client(String),
    /// An attempt to use a collection not registered with this schema.
    CollectionNotFound,
    /// A collection being added was already defined.
    CollectionAlreadyDefined,
    /// An attempt to touch a document that does not exist.
    DocumentNotFound(CollectionName, u64),
    /// The document changed on the server since the revision provided.
    DocumentConflict(CollectionName, u64),
    /// A document emitted a key in a unique view that another document
    /// already emits.
    UniqueKeyViolation {
        /// The view in which the unique key violation occurred.
        view: ViewName,
        /// The document that caused the violation.
        conflicting_document_id: u64,
        /// The document that already uses the same key.
        existing_document_id: u64,
    },
    /// An invalid name was used in a schema.
    InvalidName(InvalidNameError),
    /// Permission was denied.
    PermissionDenied(String),
    /// An internal error handling passwords.
    Password(String),
    /// The user specified was not found.
    UserNotFound,
    /// The credentials specified are not valid.
    InvalidCredentials,
}

impl From<InvalidNameError> for Error {
    fn from(err: InvalidNameError) -> (r: Error) {
        Error::InvalidName(err)
    }
}

impl vstd::std_specs::convert::FromSpecImpl<InvalidNameError> for Error {
    open spec fn obeys_from_spec() -> bool {
        true
    }

    open spec fn from_spec(err: InvalidNameError) -> Error {
        Error::InvalidName(err)
    }
}

impl From<KeyError> for Error {
    fn from(err: KeyError) -> (r: Error) {
        Error::Database(err.message)
    }
}

impl vstd::std_specs::convert::FromSpecImpl<KeyError> for Error {
    open spec fn obeys_from_spec() -> bool {
        true
    }

    open spec fn from_spec(err: KeyError) -> Error {
        Error::Database(err.message)
    }
}

} // verus!
