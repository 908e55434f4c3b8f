//! Transactions: ordered batches of document operations, and the
//! record kept of every committed batch.

use vstd::prelude::*;

verus! {

use crate::names::CollectionName;
use crate::document::{Header, Revision};

/// A single document operation.
#[derive(Debug, Clone)]
pub enum Operation {
    /// Creates a document.  With an id, the insert claims exactly that
    /// id; without one, the engine chooses the id.
    Insert {
        /// The collection to insert into.
        collection: CollectionName,
        /// The id to claim, or `None` to let the engine choose.
        id: Option<u64>,
        /// The contents of the new document.
        contents: Vec<u8>,
    },
    /// Rewrites a document, provided it still stands at the revision
    /// named by the header.
    Update {
        /// The identity the caller last read.
        header: Header,
        /// The new contents.
        contents: Vec<u8>,
    },
    /// Removes a document, provided it still stands at the revision
    /// named by the header.
    Delete {
        /// The identity the caller last read.
        header: Header,
    },
}

/// An ordered, atomic batch of operations.
#[derive(Debug, Clone)]
pub struct Transaction {
    /// The operations, applied in order under one commit point.
    pub operations: Vec<Operation>,
}

impl Transaction {
    /// An empty batch to push operations onto.
    pub fn new() -> (r: Transaction)
        ensures
            r.operations@.len() == 0,
    {
        Transaction { operations: Vec::new() }
    }

    /// Appends an operation to the batch.
    pub fn push(&mut self, operation: Operation)
        ensures
            final(self).operations@ == old(self).operations@.push(operation),
    {
        self.operations.push(operation);
    }

    /// A batch holding a single insert.
    pub fn insert(collection: CollectionName, id: Option<u64>, contents: Vec<u8>) -> (r:
        Transaction)
        ensures
            r.operations@.len() == 1,
            r.operations@[0] == (Operation::Insert { collection, id, contents }),
    {
        let mut tx = Transaction::new();
        tx.push(Operation::Insert { collection, id, contents });
        tx
    }

    /// A batch holding a single update.
    pub fn update(header: Header, contents: Vec<u8>) -> (r: Transaction)
        ensures
            r.operations@.len() == 1,
            r.operations@[0] == (Operation::Update { header, contents }),
    {
        let mut tx = Transaction::new();
        tx.push(Operation::Update { header, contents });
        tx
    }

    /// A batch holding a single delete.
    pub fn delete(header: Header) -> (r: Transaction)
        ensures
            r.operations@.len() == 1,
            r.operations@[0] == (Operation::Delete { header }),
    {
        let mut tx = Transaction::new();
        tx.push(Operation::Delete { header });
        tx
    }
}

/// What one successful operation did.
#[derive(Debug, Clone)]
pub enum OperationResult {
    /// A document was inserted or updated; the header carries its new
    /// revision.
    DocumentUpdated {
        /// The document's identity after the write.
        header: Header,
    },
    /// A document was deleted.
    DocumentDeleted {
        /// The collection the document was removed from.
        collection: CollectionName,
        /// The id of the removed document.
        id: u64,
    },
}

/// The kind of change a committed operation made.
#[derive(Debug, Clone, Copy, PartialEq, Eq, Structural)]
pub enum OperationKind {
    /// A document was created.
    Insert,
    /// A document was rewritten.
    Update,
    /// A document was removed.
    Delete,
}

/// One document touched by a committed transaction.
#[derive(Debug, Clone)]
pub struct Change {
    /// The collection of the document.
    pub collection: CollectionName,
    /// The id of the document.
    pub id: u64,
    /// What was done to it.
    pub kind: OperationKind,
    /// The revision written, for inserts and updates.
    pub revision: Option<Revision>,
}

/// The persisted record of a committed transaction: its id, when it
/// committed, and what it touched.  Written exactly once at commit
/// and append-only thereafter.
#[derive(Debug, Clone)]
pub struct Executed {
    /// The transaction's id; ids are gap-free from one upward.
    pub transaction_id: u64,
    /// Wall-clock commit time, in milliseconds.
    pub timestamp_millis: i64,
    /// The documents the transaction touched.
    pub changes: Vec<Change>,
}

} // verus!
