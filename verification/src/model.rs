//! The mathematical model of a database: what a store holds and what
//! each transaction operation does to it.
//!
//! The executable engine's contracts are stated entirely over these
//! ghost values.  Names appear in their case-folded byte form, so two
//! spellings of one name denote the same collection here.

use vstd::prelude::*;

verus! {

use crate::document::{Revision, Header, Document, content_digest};
use crate::transaction::{Operation, OperationResult, OperationKind, Change};
use crate::error::Error;

/// A document's identity in the model: its collection's case-folded
/// name, its id, and its revision.
#[verifier::ext_equal]
pub struct HeaderModel {
    /// The case-folded `(authority, name)` of the collection.
    pub collection: (Seq<u8>, Seq<u8>),
    /// The document's id.
    pub id: u64,
    /// The revision of the stored contents.
    pub revision: Revision,
}

/// A document in the model.
#[verifier::ext_equal]
pub struct DocModel {
    /// The document's identity.
    pub header: HeaderModel,
    /// The stored bytes.
    pub contents: Seq<u8>,
}

/// A collection in the model: its case-folded name and its documents,
/// held in ascending id order.
#[verifier::ext_equal]
pub struct ColModel {
    /// The case-folded `(authority, name)` of the collection.
    pub name: (Seq<u8>, Seq<u8>),
    /// The live documents, ascending by id.
    pub docs: Seq<DocModel>,
}

/// A transaction operation in the model.
pub enum OpModel {
    /// Create a document.
    Insert {
        /// The case-folded collection name.
        collection: (Seq<u8>, Seq<u8>),
        /// The id to claim, or `None` to let the engine choose.
        id: Option<u64>,
        /// The new contents.
        contents: Seq<u8>,
    },
    /// Rewrite a document at a witnessed revision.
    Update {
        /// The identity the caller last read.
        header: HeaderModel,
        /// The new contents.
        contents: Seq<u8>,
    },
    /// Remove a document at a witnessed revision.
    Delete {
        /// The identity the caller last read.
        header: HeaderModel,
    },
}

/// What one successful operation reports.
#[verifier::ext_equal]
pub enum ResultModel {
    /// The document now stands at this identity.
    Updated(HeaderModel),
    /// The document with this collection and id is gone.
    Deleted((Seq<u8>, Seq<u8>), u64),
}

/// Why an operation is refused.
pub enum FailureModel {
    /// The named collection is not part of the store.
    CollectionNotFound,
    /// No document with this id exists in the collection.
    DocumentNotFound((Seq<u8>, Seq<u8>), u64),
    /// A document stands in the way: an insert found its id taken, or
    /// an update or delete found a revision other than the one
    /// witnessed.
    DocumentConflict((Seq<u8>, Seq<u8>), u64),
    /// The collection has no id left to choose for an insert.
    IdExhausted((Seq<u8>, Seq<u8>)),
    /// The document's revision sequence cannot grow further.
    RevisionLimit((Seq<u8>, Seq<u8>), u64),
}

/// One line of an executed record in the model.
#[verifier::ext_equal]
pub struct ChangeModel {
    /// The case-folded collection name.
    pub collection: (Seq<u8>, Seq<u8>),
    /// The id of the document touched.
    pub id: u64,
    /// What was done.
    pub kind: OperationKind,
    /// The revision written, for inserts and updates.
    pub revision: Option<Revision>,
}

/// An executed record in the model.
#[verifier::ext_equal]
pub struct ExecutedModel {
    /// The transaction's id.
    pub transaction_id: u64,
    /// Wall-clock commit time, in milliseconds.
    pub timestamp_millis: i64,
    /// The documents the transaction touched.
    pub changes: Seq<ChangeModel>,
}

impl crate::transaction::Executed {
    /// This record as the model sees it.
    pub open spec fn model(&self) -> ExecutedModel {
        ExecutedModel {
            transaction_id: self.transaction_id,
            timestamp_millis: self.timestamp_millis,
            changes: changes_model(self.changes@),
        }
    }
}

/// A sequence of executed records as the model sees it.
pub open spec fn executed_model(records: Seq<crate::transaction::Executed>) -> Seq<ExecutedModel> {
    records.map_values(|e: crate::transaction::Executed| e.model())
}

impl Header {
    /// This header as the model sees it.
    pub open spec fn model(&self) -> HeaderModel {
        HeaderModel {
            collection: self.collection.folded(),
            id: self.id,
            revision: self.revision,
        }
    }
}

impl Document {
    /// This document as the model sees it.
    pub open spec fn model(&self) -> DocModel {
        DocModel { header: self.header.model(), contents: self.contents@ }
    }
}

impl Operation {
    /// This operation as the model sees it.
    pub open spec fn model(&self) -> OpModel {
        match self {
            Operation::Insert { collection, id, contents } => OpModel::Insert {
                collection: collection.folded(),
                id: *id,
                contents: contents@,
            },
            Operation::Update { header, contents } => OpModel::Update {
                header: header.model(),
                contents: contents@,
            },
            Operation::Delete { header } => OpModel::Delete { header: header.model() },
        }
    }
}

impl OperationResult {
    /// This result as the model sees it.
    pub open spec fn model(&self) -> ResultModel {
        match self {
            OperationResult::DocumentUpdated { header } => ResultModel::Updated(header.model()),
            OperationResult::DocumentDeleted { collection, id } => ResultModel::Deleted(
                collection.folded(),
                *id,
            ),
        }
    }
}

impl Change {
    /// This change line as the model sees it.
    pub open spec fn model(&self) -> ChangeModel {
        ChangeModel {
            collection: self.collection.folded(),
            id: self.id,
            kind: self.kind,
            revision: self.revision,
        }
    }
}

/// A sequence of operations as the model sees it.
pub open spec fn ops_model(ops: Seq<Operation>) -> Seq<OpModel> {
    ops.map_values(|op: Operation| op.model())
}

/// A sequence of operation results as the model sees it.
pub open spec fn results_model(results: Seq<OperationResult>) -> Seq<ResultModel> {
    results.map_values(|r: OperationResult| r.model())
}

/// A sequence of change lines as the model sees it.
pub open spec fn changes_model(changes: Seq<Change>) -> Seq<ChangeModel> {
    changes.map_values(|c: Change| c.model())
}

/// The reported error carries what the model's failure names.
pub open spec fn error_matches(e: Error, f: FailureModel) -> bool {
    match f {
        FailureModel::CollectionNotFound => e is CollectionNotFound,
        FailureModel::DocumentNotFound(c, id) => e matches Error::DocumentNotFound(ec, eid)
            && ec.folded() == c && eid == id,
        FailureModel::DocumentConflict(c, id) => e matches Error::DocumentConflict(ec, eid)
            && ec.folded() == c && eid == id,
        FailureModel::IdExhausted(_) => e is Database,
        FailureModel::RevisionLimit(_, _) => e is Database,
    }
}

/// Where a collection with this case-folded name stands, or `-1`.
pub open spec fn find_col(cols: Seq<ColModel>, name: (Seq<u8>, Seq<u8>)) -> int
    decreases cols.len(),
{
    if cols.len() == 0 {
        -1
    } else if cols[0].name == name {
        0
    } else {
        let rest = find_col(cols.drop_first(), name);
        if rest < 0 {
            -1
        } else {
            rest + 1
        }
    }
}

/// Where a document with this id stands, or `-1`.
pub open spec fn find_doc(docs: Seq<DocModel>, id: u64) -> int
    decreases docs.len(),
{
    if docs.len() == 0 {
        -1
    } else if docs[0].header.id == id {
        0
    } else {
        let rest = find_doc(docs.drop_first(), id);
        if rest < 0 {
            -1
        } else {
            rest + 1
        }
    }
}

/// Where a document with id `id` belongs in an ascending sequence.
pub open spec fn insert_pos(docs: Seq<DocModel>, id: u64) -> int
    decreases docs.len(),
{
    if docs.len() == 0 {
        0
    } else if docs[0].header.id >= id {
        0
    } else {
        1 + insert_pos(docs.drop_first(), id)
    }
}

/// The id the engine chooses for an insert that names none: one past
/// the largest id alive, starting at one.
pub open spec fn next_free_id(docs: Seq<DocModel>) -> int {
    if docs.len() == 0 {
        1
    } else {
        docs.last().header.id + 1
    }
}

/// Documents stand in strictly ascending id order.
pub open spec fn docs_sorted(docs: Seq<DocModel>) -> bool {
    forall|i: int, j: int|
        0 <= i < j < docs.len() ==> #[trigger] docs[i].header.id < #[trigger] docs[j].header.id
}

/// A document's recorded digest is the digest of its contents, and it
/// has been written at least once.
pub open spec fn doc_wf(d: DocModel) -> bool {
    d.header.revision.digest as nat == content_digest(d.contents) && d.header.revision.sequence
        >= 1
}

/// A collection is coherent: sorted unique ids, well-formed documents,
/// every document filed under the collection's name.
pub open spec fn col_wf(col: ColModel) -> bool {
    &&& docs_sorted(col.docs)
    &&& forall|i: int| 0 <= i < col.docs.len() ==> doc_wf(#[trigger] col.docs[i])
    &&& forall|i: int| 0 <= i < col.docs.len() ==> (#[trigger] col.docs[i]).header.collection
        == col.name
}

/// Every collection is coherent and no two share a name.
pub open spec fn cols_wf(cols: Seq<ColModel>) -> bool {
    &&& forall|i: int| 0 <= i < cols.len() ==> col_wf(#[trigger] cols[i])
    &&& forall|i: int, j: int|
        0 <= i < j < cols.len() ==> (#[trigger] cols[i]).name != (#[trigger] cols[j]).name
}

/// What an insert does: claim the named id (or the next free one),
/// refuse a taken id, and file the document at its first revision.
pub open spec fn spec_insert(
    cols: Seq<ColModel>,
    ci: int,
    id: Option<u64>,
    contents: Seq<u8>,
) -> Result<(Seq<ColModel>, HeaderModel), FailureModel>
    recommends
        0 <= ci < cols.len(),
{
    let col = cols[ci];
    let chosen = match id {
        Some(v) => v as int,
        None => next_free_id(col.docs),
    };
    if chosen > u64::MAX {
        Err(FailureModel::IdExhausted(col.name))
    } else if find_doc(col.docs, chosen as u64) >= 0 {
        Err(FailureModel::DocumentConflict(col.name, chosen as u64))
    } else {
        let header = HeaderModel {
            collection: col.name,
            id: chosen as u64,
            revision: Revision { sequence: 1, digest: content_digest(contents) as u64 },
        };
        let doc = DocModel { header, contents };
        let docs = col.docs.insert(insert_pos(col.docs, chosen as u64), doc);
        Ok((cols.update(ci, ColModel { name: col.name, docs }), header))
    }
}

/// What an update does: require the witnessed revision, then rewrite
/// the document one sequence step later.
pub open spec fn spec_update(
    cols: Seq<ColModel>,
    ci: int,
    header: HeaderModel,
    contents: Seq<u8>,
) -> Result<(Seq<ColModel>, HeaderModel), FailureModel>
    recommends
        0 <= ci < cols.len(),
{
    let col = cols[ci];
    let di = find_doc(col.docs, header.id);
    if di < 0 {
        Err(FailureModel::DocumentNotFound(col.name, header.id))
    } else if col.docs[di].header.revision != header.revision {
        Err(FailureModel::DocumentConflict(col.name, header.id))
    } else if col.docs[di].header.revision.sequence == u32::MAX {
        Err(FailureModel::RevisionLimit(col.name, header.id))
    } else {
        let new_header = HeaderModel {
            collection: col.name,
            id: header.id,
            revision: Revision {
                sequence: (col.docs[di].header.revision.sequence + 1) as u32,
                digest: content_digest(contents) as u64,
            },
        };
        let docs = col.docs.update(di, DocModel { header: new_header, contents });
        Ok((cols.update(ci, ColModel { name: col.name, docs }), new_header))
    }
}

/// What a delete does: require the witnessed revision, then drop the
/// document.
pub open spec fn spec_delete(cols: Seq<ColModel>, ci: int, header: HeaderModel) -> Result<
    Seq<ColModel>,
    FailureModel,
>
    recommends
        0 <= ci < cols.len(),
{
    let col = cols[ci];
    let di = find_doc(col.docs, header.id);
    if di < 0 {
        Err(FailureModel::DocumentNotFound(col.name, header.id))
    } else if col.docs[di].header.revision != header.revision {
        Err(FailureModel::DocumentConflict(col.name, header.id))
    } else {
        let docs = col.docs.remove(di);
        Ok(cols.update(ci, ColModel { name: col.name, docs }))
    }
}

/// What one operation does to the whole store.
pub open spec fn spec_apply_op(cols: Seq<ColModel>, op: OpModel) -> Result<
    (Seq<ColModel>, ResultModel),
    FailureModel,
> {
    match op {
        OpModel::Insert { collection, id, contents } => {
            let ci = find_col(cols, collection);
            if ci < 0 {
                Err(FailureModel::CollectionNotFound)
            } else {
                match spec_insert(cols, ci, id, contents) {
                    Ok((cols2, header)) => Ok((cols2, ResultModel::Updated(header))),
                    Err(f) => Err(f),
                }
            }
        },
        OpModel::Update { header, contents } => {
            let ci = find_col(cols, header.collection);
            if ci < 0 {
                Err(FailureModel::CollectionNotFound)
            } else {
                match spec_update(cols, ci, header, contents) {
                    Ok((cols2, new_header)) => Ok((cols2, ResultModel::Updated(new_header))),
                    Err(f) => Err(f),
                }
            }
        },
        OpModel::Delete { header } => {
            let ci = find_col(cols, header.collection);
            if ci < 0 {
                Err(FailureModel::CollectionNotFound)
            } else {
                match spec_delete(cols, ci, header) {
                    Ok(cols2) => Ok(
                        (cols2, ResultModel::Deleted(cols[ci].name, header.id)),
                    ),
                    Err(f) => Err(f),
                }
            }
        },
    }
}

/// What an ordered batch does: each operation sees the store as the
/// ones before it left it, and the first refusal refuses the batch.
pub open spec fn spec_apply_ops(cols: Seq<ColModel>, ops: Seq<OpModel>) -> Result<
    (Seq<ColModel>, Seq<ResultModel>),
    FailureModel,
>
    decreases ops.len(),
{
    if ops.len() == 0 {
        Ok((cols, Seq::empty()))
    } else {
        match spec_apply_op(cols, ops[0]) {
            Err(f) => Err(f),
            Ok((cols2, r)) => match spec_apply_ops(cols2, ops.drop_first()) {
                Err(f) => Err(f),
                Ok((cols3, rs)) => Ok((cols3, seq![r] + rs)),
            },
        }
    }
}

/// The change line a committed operation writes into the executed
/// record.
pub open spec fn change_of(op: OpModel, r: ResultModel) -> ChangeModel {
    match r {
        ResultModel::Updated(h) => ChangeModel {
            collection: h.collection,
            id: h.id,
            kind: if op is Insert {
                OperationKind::Insert
            } else {
                OperationKind::Update
            },
            revision: Some(h.revision),
        },
        ResultModel::Deleted(c, id) => ChangeModel {
            collection: c,
            id,
            kind: OperationKind::Delete,
            revision: None,
        },
    }
}

/// Where `find_col` points: at the first collection of that name, or
/// nowhere exactly when no collection has the name.
pub proof fn lemma_find_col(cols: Seq<ColModel>, name: (Seq<u8>, Seq<u8>))
    ensures
        find_col(cols, name) == -1 ==> forall|i: int|
            0 <= i < cols.len() ==> (#[trigger] cols[i]).name != name,
        find_col(cols, name) >= 0 ==> 0 <= find_col(cols, name) < cols.len() && cols[find_col(
            cols,
            name,
        )].name == name && forall|j: int|
            0 <= j < find_col(cols, name) ==> (#[trigger] cols[j]).name != name,
    decreases cols.len(),
{
    if cols.len() > 0 && cols[0].name != name {
        lemma_find_col(cols.drop_first(), name);
        let r = find_col(cols, name);
        if r == -1 {
            assert forall|i: int| 0 <= i < cols.len() implies (#[trigger] cols[i]).name
                != name by {
                if i > 0 {
                    assert(cols.drop_first()[i - 1] == cols[i]);
                }
            }
        } else {
            assert(cols.drop_first()[r - 1] == cols[r]);
            assert forall|j: int| 0 <= j < r implies (#[trigger] cols[j]).name != name by {
                if j > 0 {
                    assert(cols.drop_first()[j - 1] == cols[j]);
                }
            }
        }
    }
}

/// `find_col` looks only at names: stores with pointwise equal names
/// resolve alike.
pub proof fn lemma_find_col_names(cols1: Seq<ColModel>, cols2: Seq<ColModel>, name: (
    Seq<u8>,
    Seq<u8>,
))
    requires
        cols1.len() == cols2.len(),
        forall|i: int| 0 <= i < cols1.len() ==> (#[trigger] cols1[i]).name == cols2[i].name,
    ensures
        find_col(cols1, name) == find_col(cols2, name),
    decreases cols1.len(),
{
    if cols1.len() > 0 {
        assert(forall|i: int|
            0 <= i < cols1.drop_first().len() ==> (#[trigger] cols1.drop_first()[i]) == cols1[i
                + 1] && cols2.drop_first()[i] == cols2[i + 1]);
        lemma_find_col_names(cols1.drop_first(), cols2.drop_first(), name);
    }
}

/// Where `find_doc` points: at the first document of that id, or
/// nowhere exactly when no document has the id.
pub proof fn lemma_find_doc(docs: Seq<DocModel>, id: u64)
    ensures
        find_doc(docs, id) == -1 ==> forall|i: int|
            0 <= i < docs.len() ==> (#[trigger] docs[i]).header.id != id,
        find_doc(docs, id) >= 0 ==> 0 <= find_doc(docs, id) < docs.len() && docs[find_doc(
            docs,
            id,
        )].header.id == id && forall|j: int|
            0 <= j < find_doc(docs, id) ==> (#[trigger] docs[j]).header.id != id,
    decreases docs.len(),
{
    if docs.len() > 0 && docs[0].header.id != id {
        lemma_find_doc(docs.drop_first(), id);
        let r = find_doc(docs, id);
        if r == -1 {
            assert forall|i: int| 0 <= i < docs.len() implies (#[trigger] docs[i]).header.id
                != id by {
                if i > 0 {
                    assert(docs.drop_first()[i - 1] == docs[i]);
                }
            }
        } else {
            assert(docs.drop_first()[r - 1] == docs[r]);
            assert forall|j: int| 0 <= j < r implies (#[trigger] docs[j]).header.id != id by {
                if j > 0 {
                    assert(docs.drop_first()[j - 1] == docs[j]);
                }
            }
        }
    }
}

/// Where a new id belongs: after every smaller id and before the rest.
pub proof fn lemma_insert_pos(docs: Seq<DocModel>, id: u64)
    requires
        docs_sorted(docs),
    ensures
        0 <= insert_pos(docs, id) <= docs.len(),
        forall|j: int|
            0 <= j < insert_pos(docs, id) ==> (#[trigger] docs[j]).header.id < id,
        forall|j: int|
            insert_pos(docs, id) <= j < docs.len() ==> (#[trigger] docs[j]).header.id >= id,
    decreases docs.len(),
{
    if docs.len() > 0 && docs[0].header.id < id {
        assert forall|i: int, j: int|
            0 <= i < j < docs.drop_first().len() implies (#[trigger] docs.drop_first()[i]).header.id
            < (#[trigger] docs.drop_first()[j]).header.id by {
            assert(docs.drop_first()[i] == docs[i + 1]);
            assert(docs.drop_first()[j] == docs[j + 1]);
        }
        lemma_insert_pos(docs.drop_first(), id);
        let p = insert_pos(docs, id);
        assert forall|j: int| 0 <= j < p implies (#[trigger] docs[j]).header.id < id by {
            if j > 0 {
                assert(docs.drop_first()[j - 1] == docs[j]);
            }
        }
        assert forall|j: int| p <= j < docs.len() implies (#[trigger] docs[j]).header.id >= id by {
            assert(docs.drop_first()[j - 1] == docs[j]);
        }
    }
}

/// A successful operation keeps the store coherent, and neither adds,
/// removes nor renames a collection.
pub proof fn lemma_spec_apply_op_wf(cols: Seq<ColModel>, op: OpModel)
    requires
        cols_wf(cols),
        spec_apply_op(cols, op) is Ok,
    ensures
        ({
            let (cols2, _) = spec_apply_op(cols, op)->Ok_0;
            cols_wf(cols2) && cols2.len() == cols.len() && forall|i: int|
                0 <= i < cols.len() ==> (#[trigger] cols2[i]).name == cols[i].name
        }),
{
    let (cols2, _) = spec_apply_op(cols, op)->Ok_0;
    match op {
        OpModel::Insert { collection, id, contents } => {
            let ci = find_col(cols, collection);
            lemma_find_col(cols, collection);
            let col = cols[ci];
            let chosen = match id {
                Some(v) => v as int,
                None => next_free_id(col.docs),
            };
            let cid = chosen as u64;
            lemma_find_doc(col.docs, cid);
            let p = insert_pos(col.docs, cid);
            lemma_insert_pos(col.docs, cid);
            let header = HeaderModel {
                collection: col.name,
                id: cid,
                revision: Revision { sequence: 1, digest: content_digest(contents) as u64 },
            };
            let doc = DocModel { header, contents };
            let docs2 = col.docs.insert(p, doc);
            assert(forall|j: int|
                0 <= j < docs2.len() ==> #[trigger] docs2[j] == (if j < p {
                    col.docs[j]
                } else if j == p {
                    doc
                } else {
                    col.docs[j - 1]
                }));
            assert(docs_sorted(docs2)) by {
                assert(forall|j: int|
                    p <= j < col.docs.len() ==> (#[trigger] col.docs[j]).header.id > cid) by {
                    assert(forall|j: int|
                        p <= j < col.docs.len() ==> (#[trigger] col.docs[j]).header.id != cid);
                }
            }
            assert(cols2[ci].docs == docs2);
            assert(cols_wf(cols2));
        },
        OpModel::Update { header, contents } => {
            let ci = find_col(cols, header.collection);
            lemma_find_col(cols, header.collection);
            let col = cols[ci];
            let di = find_doc(col.docs, header.id);
            lemma_find_doc(col.docs, header.id);
            assert(cols_wf(cols2));
        },
        OpModel::Delete { header } => {
            let ci = find_col(cols, header.collection);
            lemma_find_col(cols, header.collection);
            let col = cols[ci];
            let di = find_doc(col.docs, header.id);
            lemma_find_doc(col.docs, header.id);
            let docs2 = col.docs.remove(di);
            assert(forall|j: int|
                0 <= j < docs2.len() ==> #[trigger] docs2[j] == (if j < di {
                    col.docs[j]
                } else {
                    col.docs[j + 1]
                }));
            assert(cols_wf(cols2));
        },
    }
}

/// A successful batch keeps the store coherent and its collections as
/// they were named.
pub proof fn lemma_spec_apply_ops_wf(cols: Seq<ColModel>, ops: Seq<OpModel>)
    requires
        cols_wf(cols),
        spec_apply_ops(cols, ops) is Ok,
    ensures
        ({
            let (cols2, results) = spec_apply_ops(cols, ops)->Ok_0;
            cols_wf(cols2) && cols2.len() == cols.len() && results.len() == ops.len() && forall|
                i: int,
            | 0 <= i < cols.len() ==> (#[trigger] cols2[i]).name == cols[i].name
        }),
    decreases ops.len(),
{
    if ops.len() > 0 {
        let (cols1, _) = spec_apply_op(cols, ops[0])->Ok_0;
        lemma_spec_apply_op_wf(cols, ops[0]);
        lemma_spec_apply_ops_wf(cols1, ops.drop_first());
    }
}

/// Extending a batch by one operation: the store after the longer
/// prefix is the store after the shorter one with the next operation
/// applied, and a refusal stands.
pub proof fn lemma_spec_apply_ops_snoc(cols0: Seq<ColModel>, ops: Seq<OpModel>, i: int)
    requires
        0 <= i < ops.len(),
    ensures
        ({
            match spec_apply_ops(cols0, ops.take(i)) {
                Ok(pair) => spec_apply_ops(cols0, ops.take(i + 1)) == (match spec_apply_op(
                    pair.0,
                    ops[i],
                ) {
                    Err(f) => Err::<(Seq<ColModel>, Seq<ResultModel>), FailureModel>(f),
                    Ok((c2, r)) => Ok::<(Seq<ColModel>, Seq<ResultModel>), FailureModel>(
                        (c2, pair.1.push(r)),
                    ),
                }),
                Err(f) => spec_apply_ops(cols0, ops.take(i + 1)) == Err::<
                    (Seq<ColModel>, Seq<ResultModel>),
                    FailureModel,
                >(f),
            }
        }),
    decreases i,
{
    if i == 0 {
        assert(ops.take(0) =~= Seq::<OpModel>::empty());
        assert(ops.take(1).drop_first() =~= Seq::<OpModel>::empty());
        assert(ops.take(1)[0] == ops[0]);
        match spec_apply_op(cols0, ops[0]) {
            Err(_) => {
            },
            Ok((c2, r)) => {
                assert(spec_apply_ops(c2, Seq::<OpModel>::empty()) == Ok::<
                    (Seq<ColModel>, Seq<ResultModel>),
                    FailureModel,
                >((c2, Seq::empty())));
                assert(seq![r] + Seq::<ResultModel>::empty() =~= Seq::<
                    ResultModel,
                >::empty().push(r));
            },
        }
    } else {
        assert(ops.take(i)[0] == ops[0]);
        assert(ops.take(i + 1)[0] == ops[0]);
        assert(ops.take(i).drop_first() =~= ops.drop_first().take(i - 1));
        assert(ops.take(i + 1).drop_first() =~= ops.drop_first().take(i));
        assert(ops.drop_first()[i - 1] == ops[i]);
        match spec_apply_op(cols0, ops[0]) {
            Err(_) => {
            },
            Ok((c1, r0)) => {
                lemma_spec_apply_ops_snoc(c1, ops.drop_first(), i - 1);
                match spec_apply_ops(c1, ops.drop_first().take(i - 1)) {
                    Err(_) => {
                    },
                    Ok(rest_pair) => {
                        match spec_apply_op(rest_pair.0, ops[i]) {
                            Err(_) => {
                            },
                            Ok((c2, r)) => {
                                assert(seq![r0] + rest_pair.1.push(r) =~= (seq![r0]
                                    + rest_pair.1).push(r));
                            },
                        }
                    },
                }
            },
        }
    }
}

/// A batch of one operation does exactly what the operation does.
pub proof fn lemma_spec_apply_ops_single(cols: Seq<ColModel>, op: OpModel)
    ensures
        ({
            match spec_apply_op(cols, op) {
                Ok(pair) => spec_apply_ops(cols, seq![op]) == Ok::<
                    (Seq<ColModel>, Seq<ResultModel>),
                    FailureModel,
                >((pair.0, seq![pair.1])),
                Err(f) => spec_apply_ops(cols, seq![op]) == Err::<
                    (Seq<ColModel>, Seq<ResultModel>),
                    FailureModel,
                >(f),
            }
        }),
{
    assert(seq![op][0] == op);
    assert(seq![op].drop_first() =~= Seq::<OpModel>::empty());
    match spec_apply_op(cols, op) {
        Ok(pair) => {
            assert(spec_apply_ops(pair.0, Seq::<OpModel>::empty()) == Ok::<
                (Seq<ColModel>, Seq<ResultModel>),
                FailureModel,
            >((pair.0, Seq::empty())));
            assert(seq![pair.1] + Seq::<ResultModel>::empty() =~= seq![pair.1]);
        },
        Err(_) => {
        },
    }
}

/// A refused prefix refuses the whole batch, for the same reason.
pub proof fn lemma_spec_apply_ops_err_extend(cols0: Seq<ColModel>, ops: Seq<OpModel>, i: int)
    requires
        0 <= i <= ops.len(),
        spec_apply_ops(cols0, ops.take(i)) is Err,
    ensures
        spec_apply_ops(cols0, ops) == spec_apply_ops(cols0, ops.take(i)),
    decreases i,
{
    assert(i > 0) by {
        assert(ops.take(0) =~= Seq::<OpModel>::empty());
    }
    assert(ops.take(i)[0] == ops[0]);
    match spec_apply_op(cols0, ops[0]) {
        Err(_) => {
        },
        Ok((c1, _)) => {
            assert(ops.take(i).drop_first() =~= ops.drop_first().take(i - 1));
            lemma_spec_apply_ops_err_extend(c1, ops.drop_first(), i - 1);
        },
    }
}


/// The batch that removes each of these documents.
pub open spec fn delete_ops(docs: Seq<DocModel>) -> Seq<OpModel> {
    docs.map_values(|d: DocModel| (OpModel::Delete { header: d.header }))
}

/// Under distinct collection names, a collection is found at its own
/// index.
pub proof fn lemma_find_col_at(cols: Seq<ColModel>, ci: int)
    requires
        cols_wf(cols),
        0 <= ci < cols.len(),
    ensures
        find_col(cols, cols[ci].name) == ci,
{
    lemma_find_col(cols, cols[ci].name);
    let r = find_col(cols, cols[ci].name);
    if r == -1 {
        assert(cols[ci].name != cols[ci].name);
    } else if r != ci {
        if r < ci {
            assert(cols[r].name != cols[ci].name);
        } else {
            assert(cols[ci].name != cols[r].name);
        }
    }
}

/// A batch of deletes succeeds when every target is a live document
/// of the collection, named with its stored identity, and no two
/// deletes aim at the same id.
pub proof fn lemma_spec_delete_batch(cols: Seq<ColModel>, ci: int, goners: Seq<DocModel>)
    requires
        cols_wf(cols),
        0 <= ci < cols.len(),
        forall|k: int|
            0 <= k < goners.len() ==> (#[trigger] goners[k]).header.collection == cols[ci].name,
        forall|k: int| 0 <= k < goners.len() ==> cols[ci].docs.contains(#[trigger] goners[k]),
        forall|k1: int, k2: int|
            0 <= k1 < k2 < goners.len() ==> (#[trigger] goners[k1]).header.id != (
            #[trigger] goners[k2]).header.id,
    ensures
        spec_apply_ops(cols, delete_ops(goners)) is Ok,
    decreases goners.len(),
{
    if goners.len() == 0 {
        assert(delete_ops(goners) =~= Seq::<OpModel>::empty());
    } else {
        let g = goners[0];
        let op = (OpModel::Delete { header: g.header });
        assert(delete_ops(goners)[0] == op);
        lemma_find_col_at(cols, ci);
        let docs = cols[ci].docs;
        let j = choose|j: int| 0 <= j < docs.len() && docs[j] == g;
        lemma_find_doc(docs, g.header.id);
        let di = find_doc(docs, g.header.id);
        assert(col_wf(cols[ci]));
        if di == -1 {
            assert(docs[j].header.id != g.header.id);
        }
        if di != j {
            if di < j {
                assert(docs[di].header.id < docs[j].header.id);
            } else {
                assert(docs[j].header.id < docs[di].header.id);
            }
        }
        assert(docs[di] == g);
        assert(spec_delete(cols, ci, g.header) is Ok);
        lemma_spec_apply_op_wf(cols, op);
        let cols2 = spec_apply_op(cols, op)->Ok_0.0;
        let docs2 = docs.remove(di);
        assert(cols2[ci].docs == docs2);
        assert(cols2[ci].name == cols[ci].name);
        let rest = goners.drop_first();
        assert forall|k: int| 0 <= k < rest.len() implies cols2[ci].docs.contains(
            #[trigger] rest[k],
        ) by {
            let gk = rest[k];
            assert(gk == goners[k + 1]);
            assert(docs.contains(gk));
            let jk = choose|jk: int| 0 <= jk < docs.len() && docs[jk] == gk;
            assert(gk.header.id != g.header.id);
            assert(jk != di);
            if jk < di {
                assert(docs2[jk] == docs[jk]);
            } else {
                assert(docs2[jk - 1] == docs[jk]);
            }
        }
        assert(forall|k: int|
            0 <= k < rest.len() ==> (#[trigger] rest[k]).header.collection == cols2[ci].name);
        assert(forall|k1: int, k2: int|
            0 <= k1 < k2 < rest.len() ==> (#[trigger] rest[k1]).header.id != (
            #[trigger] rest[k2]).header.id);
        lemma_spec_delete_batch(cols2, ci, rest);
        assert(delete_ops(goners).drop_first() =~= delete_ops(rest));
    }
}

/// Revision monotonicity: a successful update advances the stored
/// document's sequence by exactly one.
pub proof fn lemma_revision_monotonic(
    cols: Seq<ColModel>,
    ci: int,
    header: HeaderModel,
    contents: Seq<u8>,
)
    requires
        0 <= ci < cols.len(),
        spec_update(cols, ci, header, contents) is Ok,
    ensures
        ({
            let (cols2, h2) = spec_update(cols, ci, header, contents)->Ok_0;
            let di = find_doc(cols[ci].docs, header.id);
            &&& h2.revision.sequence == cols[ci].docs[di].header.revision.sequence + 1
            &&& cols2[ci].docs[di].header.revision.sequence == cols[ci].docs[di].header.revision.sequence + 1
            &&& h2.revision.sequence > header.revision.sequence
        }),
{
    let di = find_doc(cols[ci].docs, header.id);
    lemma_find_doc(cols[ci].docs, header.id);
}

/// Idempotent insert-with-id: once an insert has claimed an id, the
/// same insert is refused with a conflict on exactly that document.
pub proof fn lemma_insert_idempotent(
    cols: Seq<ColModel>,
    collection: (Seq<u8>, Seq<u8>),
    id: u64,
    contents: Seq<u8>,
    contents2: Seq<u8>,
)
    requires
        cols_wf(cols),
        spec_apply_op(cols, OpModel::Insert { collection, id: Some(id), contents }) is Ok,
    ensures
        ({
            let (cols2, _) = spec_apply_op(
                cols,
                OpModel::Insert { collection, id: Some(id), contents },
            )->Ok_0;
            let second = spec_apply_op(
                cols2,
                OpModel::Insert { collection, id: Some(id), contents: contents2 },
            );
            second matches Err(f) && f matches FailureModel::DocumentConflict(c, i) && c
                == collection && i == id
        }),
{
    let op = OpModel::Insert { collection, id: Some(id), contents };
    let (cols2, _) = spec_apply_op(cols, op)->Ok_0;
    let ci = find_col(cols, collection);
    lemma_find_col(cols, collection);
    lemma_spec_apply_op_wf(cols, op);
    lemma_find_col_names(cols2, cols, collection);
    let col = cols[ci];
    let p = insert_pos(col.docs, id);
    lemma_insert_pos(col.docs, id);
    assert(cols2[ci].docs[p].header.id == id);
    lemma_find_doc(cols2[ci].docs, id);
    assert(find_doc(cols2[ci].docs, id) >= 0);
    assert(cols2[ci].name == collection);
}

} // verus!
